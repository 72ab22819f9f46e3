//! Account addresses, their text form and the key files that hold them.

use vstd::prelude::*;
use vstd::string::*;

use crate::bytes::same_bytes;
use crate::decimal::{byte_text, decimal_u8, decimal_value};

verus! {

/// The address of an account: 32 bytes.
#[derive(Clone, Copy, Debug, PartialEq, Eq)]
pub struct Pubkey {
    pub bytes: [u8; 32],
}

/// The text that an address of these bytes is displayed as.
pub uninterp spec fn pubkey_text(bytes: Seq<u8>) -> Seq<char>;

/// The bytes that a base58 text stands for, if it is one.
pub uninterp spec fn base58_bytes(text: Seq<char>) -> Option<Seq<u8>>;

/// The public key inside the bytes of a keypair, or why they are no keypair.
pub uninterp spec fn keypair_public(bytes: Seq<u8>) -> Result<Seq<u8>, Seq<char>>;

/// `Display` of `solana_sdk::pubkey::Pubkey`. It writes the base58 encoding of the
/// 32 bytes: the text depends on them alone, and `bs58::decode` reads the same
/// bytes back from it.
#[verifier::external_body]
fn display_pubkey(pubkey: &Pubkey) -> (text: String)
    ensures
        text@ == pubkey_text(pubkey.bytes@),
        base58_bytes(text@) == Some(pubkey.bytes@),
{
    format!("{}", solana_sdk::pubkey::Pubkey::new_from_array(pubkey.bytes))
}

/// `bs58::decode(..).into_vec()`. What it returns depends on the text alone; the
/// reason for a refusal is not kept.
#[verifier::external_body]
fn decode_base58(text: &str) -> (decoded: Option<Vec<u8>>)
    ensures
        match decoded {
            Some(bytes) => base58_bytes(text@) == Some(bytes@),
            None => base58_bytes(text@) is None,
        },
{
    bs58::decode(text).into_vec().ok()
}

/// `ed25519_dalek::Keypair::from_bytes`, and the bytes of the public half. What it
/// returns depends on the bytes alone. It accepts only 64 bytes, and then the
/// public half is the last 32 of them. Which public halves it accepts (the points
/// of the curve) is left to the name.
#[verifier::external_body]
fn read_keypair(bytes: &[u8]) -> (public: Result<[u8; 32], String>)
    ensures
        match public {
            Ok(key) => keypair_public(bytes@) == Ok::<Seq<u8>, Seq<char>>(key@),
            Err(reason) => keypair_public(bytes@) == Err::<Seq<u8>, Seq<char>>(reason@),
        },
        public matches Ok(key) ==> bytes@.len() == 64 && key@ == bytes@.subrange(32, 64),
{
    match ed25519_dalek::Keypair::from_bytes(bytes) {
        Ok(keypair) => Ok(keypair.public.to_bytes()),
        Err(e) => Err(format!("{}", e)),
    }
}

impl Pubkey {
    /// Whether two addresses are the same.
    pub fn same(&self, other: &Pubkey) -> (same: bool)
        ensures
            same == (*self == *other),
            same == (self.bytes@ == other.bytes@),
    {
        same_bytes(&self.bytes, &other.bytes)
    }
}

/// The text form of an address, by which accounts are looked up.
pub fn pubkey_to_string(pubkey: &Pubkey) -> (text: String)
    ensures
        is_text_of(text@, *pubkey),
{
    display_pubkey(pubkey)
}

/// Why a key could not be made.
#[derive(Debug, PartialEq, Eq)]
pub enum KeyError {
    /// The key file could not be read.
    Unreadable { path: String, reason: String },
    /// The key file holds fewer than two numbers.
    Short,
    /// The key file is not a bracketed list of numbers from 0 to 255. There is no
    /// way on from such a file.
    Malformed,
    /// The numbers of the key file are no keypair.
    Invalid { path: String, reason: String },
}

impl KeyError {
    /// What is said about the error.
    pub open spec fn text(self) -> Seq<char> {
        match self {
            KeyError::Unreadable { path, reason } => "Failed to read key file '"@ + path@ + "': "@
                + reason@,
            KeyError::Short => "Short key file"@,
            KeyError::Malformed => "Malformed key file"@,
            KeyError::Invalid { path, reason } => "Invalid key file '"@ + path@ + "' contents: "@
                + reason@,
        }
    }

    /// What is said about the error.
    pub fn message(&self) -> (message: String)
        ensures
            message@ == self.text(),
    {
        match self {
            KeyError::Unreadable { path, reason } => {
                let mut m = "Failed to read key file '".to_string();
                m.append(path.as_str());
                m.append("': ");
                m.append(reason.as_str());
                m
            },
            KeyError::Short => "Short key file".to_string(),
            KeyError::Malformed => "Malformed key file".to_string(),
            KeyError::Invalid { path, reason } => {
                let mut m = "Invalid key file '".to_string();
                m.append(path.as_str());
                m.append("' contents: ");
                m.append(reason.as_str());
                m
            },
        }
    }
}

/// The pieces of `s` between commas.
pub open spec fn comma_fields(s: Seq<u8>) -> Seq<Seq<u8>>
    decreases s.len(),
{
    if s.len() == 0 {
        seq![Seq::empty()]
    } else {
        let fields = comma_fields(s.drop_last());
        if s.last() == 44 {
            fields.push(Seq::empty())
        } else {
            fields.update(fields.len() - 1, fields.last().push(s.last()))
        }
    }
}

/// What the text of a key file turns out to hold.
pub ghost enum KeyText {
    Short,
    Malformed,
    Bytes(Seq<u8>),
}

/// Whether a piece of a key file is a number from 0 to 255.
pub open spec fn is_byte_field(field: Seq<u8>) -> bool {
    decimal_value(byte_text(field)) matches Some(n) && n <= 255
}

/// The pieces of a key file without the first and the last byte of the file, which
/// are the brackets.
pub open spec fn unbracketed(fields: Seq<Seq<u8>>) -> Seq<Seq<u8>> {
    let opened = fields.update(0, fields[0].drop_first());
    opened.update(opened.len() - 1, opened.last().drop_last())
}

/// The numbers that a key file lists, as bytes.
pub open spec fn key_text(contents: Seq<u8>) -> KeyText {
    let fields = comma_fields(contents);
    if fields.len() < 2 {
        KeyText::Short
    } else if fields[0].len() == 0 || fields.last().len() == 0 {
        KeyText::Malformed
    } else {
        let inner = unbracketed(fields);
        if forall|i: int| 0 <= i < inner.len() ==> is_byte_field(#[trigger] inner[i]) {
            KeyText::Bytes(
                Seq::new(inner.len(), |i: int| decimal_value(byte_text(inner[i]))->0 as u8),
            )
        } else {
            KeyText::Malformed
        }
    }
}

/// The views of a list of byte strings.
pub open spec fn field_views(fields: Seq<Vec<u8>>) -> Seq<Seq<u8>> {
    Seq::new(fields.len(), |i: int| fields[i]@)
}

/// Splits a key file at its commas.
fn split_fields(contents: &[u8]) -> (fields: Vec<Vec<u8>>)
    ensures
        field_views(fields@) == comma_fields(contents@),
        fields@.len() >= 1,
{
    let mut done: Vec<Vec<u8>> = Vec::new();
    let mut current: Vec<u8> = Vec::new();
    let mut i: usize = 0;
    assert(field_views(done@).push(current@) =~= comma_fields(contents@.take(0)));
    while i < contents.len()
        invariant
            i <= contents@.len(),
            field_views(done@).push(current@) == comma_fields(contents@.take(i as int)),
        decreases contents@.len() - i,
    {
        let b: u8 = contents[i];
        let ghost seen: Seq<u8> = contents@.take(i as int);
        let ghost next: Seq<u8> = contents@.take(i as int + 1);
        let ghost before: Seq<Seq<u8>> = field_views(done@).push(current@);
        assert(next.drop_last() =~= seen);
        if b == 44 {
            done.push(current);
            current = Vec::new();
            assert(field_views(done@).push(current@) =~= before.push(Seq::empty()));
        } else {
            current.push(b);
            assert(field_views(done@).push(current@) =~= before.update(
                before.len() - 1,
                before.last().push(b),
            ));
        }
        i = i + 1;
    }
    assert(contents@.take(i as int) =~= contents@);
    let ghost last: Seq<u8> = current@;
    let ghost views: Seq<Seq<u8>> = field_views(done@);
    done.push(current);
    assert(field_views(done@) =~= views.push(last));
    done
}

/// Reads the numbers of a key file: a comma-separated list between two brackets.
pub fn parse_key_file(contents: &[u8]) -> (key: Result<Vec<u8>, KeyError>)
    ensures
        match key_text(contents@) {
            KeyText::Short => key == Err::<Vec<u8>, KeyError>(KeyError::Short),
            KeyText::Malformed => key == Err::<Vec<u8>, KeyError>(KeyError::Malformed),
            KeyText::Bytes(bytes) => key is Ok && key->Ok_0@ == bytes,
        },
{
    let mut fields = split_fields(contents);
    let ghost raw: Seq<Seq<u8>> = comma_fields(contents@);
    let n: usize = fields.len();
    if n < 2 {
        return Err(KeyError::Short);
    }
    assert(fields@[0]@ == raw[0]);
    assert(fields@[n - 1]@ == raw.last());
    if fields[0].len() == 0 || fields[n - 1].len() == 0 {
        return Err(KeyError::Malformed);
    }
    let mut first: Vec<u8> = fields.remove(0);
    first.remove(0);
    fields.insert(0, first);
    let mut last: Vec<u8> = fields.remove(n - 1);
    let ghost long_last: Seq<u8> = last@;
    last.pop();
    fields.insert(n - 1, last);
    let ghost inner: Seq<Seq<u8>> = unbracketed(raw);
    proof {
        assert(inner.len() == n);
        assert(long_last.drop_last() =~= inner[n - 1]);
        assert(field_views(fields@) =~= inner);
    }
    let mut bytes: Vec<u8> = Vec::new();
    let mut i: usize = 0;
    while i < n
        invariant
            i <= n,
            n == fields@.len(),
            n == inner.len(),
            bytes@.len() == i,
            field_views(fields@) == inner,
            raw == comma_fields(contents@),
            raw.len() == n,
            n >= 2,
            raw[0].len() > 0,
            raw.last().len() > 0,
            inner == unbracketed(raw),
            forall|k: int| 0 <= k < i ==> is_byte_field(#[trigger] inner[k]),
            forall|k: int|
                0 <= k < i ==> #[trigger] bytes@[k] == decimal_value(byte_text(inner[k]))->0 as u8,
        decreases n - i,
    {
        assert(fields@[i as int]@ == inner[i as int]);
        match decimal_u8(&fields[i]) {
            Some(b) => {
                assert(is_byte_field(inner[i as int]));
                bytes.push(b);
            },
            None => {
                assert(!is_byte_field(inner[i as int]));
                return Err(KeyError::Malformed);
            },
        }
        i = i + 1;
    }
    proof {
        let expected = Seq::new(inner.len(), |i: int| decimal_value(byte_text(inner[i]))->0 as u8);
        assert(bytes@ =~= expected);
    }
    Ok(bytes)
}

/// The address that `text` spells in base58, if it spells 32 bytes.
pub open spec fn base58_pubkey(text: Seq<char>) -> Option<Seq<u8>> {
    match base58_bytes(text) {
        Some(bytes) => if bytes.len() == 32 {
            Some(bytes)
        } else {
            None
        },
        None => None,
    }
}

/// The given 32 bytes as an address.
fn pubkey_of(bytes: &Vec<u8>) -> (pubkey: Pubkey)
    requires
        bytes@.len() == 32,
    ensures
        pubkey.bytes@ == bytes@,
{
    let mut array: [u8; 32] = [0u8; 32];
    let mut i: usize = 0;
    while i < 32
        invariant
            i <= 32,
            bytes@.len() == 32,
            forall|k: int| 0 <= k < i ==> array@[k] == bytes@[k],
        decreases 32 - i,
    {
        array[i] = bytes[i];
        i = i + 1;
    }
    assert(array@ =~= bytes@);
    Pubkey { bytes: array }
}

/// Reads an address written in base58.
pub fn pubkey_from_base58(text: &str) -> (pubkey: Option<Pubkey>)
    ensures
        match base58_pubkey(text@) {
            Some(bytes) => pubkey is Some && pubkey->0.bytes@ == bytes,
            None => pubkey is None,
        },
{
    match decode_base58(text) {
        Some(bytes) => if bytes.len() == 32 {
            Some(pubkey_of(&bytes))
        } else {
            None
        },
        None => None,
    }
}

/// What the contents of the key file at `path`, or the reason why they could not be
/// read, amount to.
pub open spec fn key_file_outcome(
    path: Seq<char>,
    file: Result<Seq<u8>, Seq<char>>,
    outcome: Result<Pubkey, KeyError>,
) -> bool {
    match file {
        Err(reason) => outcome matches Err(KeyError::Unreadable { path: p, reason: r }) && p@ == path
            && r@ == reason,
        Ok(contents) => match key_text(contents) {
            KeyText::Short => outcome == Err::<Pubkey, KeyError>(KeyError::Short),
            KeyText::Malformed => outcome == Err::<Pubkey, KeyError>(KeyError::Malformed),
            KeyText::Bytes(bytes) => match keypair_public(bytes) {
                Ok(public) => {
                    &&& outcome matches Ok(pubkey) && pubkey.bytes@ == public
                    &&& bytes.len() == 64
                    &&& public == bytes.subrange(32, 64)
                },
                Err(reason) => outcome matches Err(KeyError::Invalid { path: p, reason: r }) && p@
                    == path && r@ == reason,
            },
        },
    }
}

/// The contents of a file, or the reason why it could not be read.
pub open spec fn file_view(file: Result<Vec<u8>, String>) -> Result<Seq<u8>, Seq<char>> {
    match file {
        Ok(contents) => Ok(contents@),
        Err(reason) => Err(reason@),
    }
}

/// The address of the keypair whose bytes a key file listed.
pub fn pubkey_from_keypair(path: &str, bytes: &Vec<u8>) -> (pubkey: Result<Pubkey, KeyError>)
    ensures
        match keypair_public(bytes@) {
            Ok(public) => pubkey matches Ok(key) && key.bytes@ == public,
            Err(reason) => pubkey matches Err(KeyError::Invalid { path: p, reason: r }) && p@
                == path@ && r@ == reason,
        },
        pubkey matches Ok(key) ==> bytes@.len() == 64 && key.bytes@ == bytes@.subrange(32, 64),
{
    match read_keypair(bytes.as_slice()) {
        Ok(public) => Ok(Pubkey { bytes: public }),
        Err(reason) => Err(KeyError::Invalid { path: path.to_string(), reason }),
    }
}

/// The public key of the keypair in the key file at `path`, given what came of
/// reading the file.
pub fn pubkey_from_key_file(path: &str, file: &Result<Vec<u8>, String>) -> (pubkey: Result<
    Pubkey,
    KeyError,
>)
    ensures
        key_file_outcome(path@, file_view(*file), pubkey),
{
    match file {
        Err(reason) => Err(
            KeyError::Unreadable { path: path.to_string(), reason: reason.clone() },
        ),
        Ok(contents) => match parse_key_file(contents.as_slice()) {
            Ok(bytes) => pubkey_from_keypair(path, &bytes),
            Err(e) => Err(e),
        },
    }
}

/// Makes an address out of `s`: its base58 text or, failing that, the path of a
/// file with its keypair. `file` is what came of reading the file at `s`.
pub fn make_pubkey(s: &str, file: &Result<Vec<u8>, String>) -> (pubkey: Result<Pubkey, KeyError>)
    ensures
        match base58_pubkey(s@) {
            Some(bytes) => pubkey matches Ok(key) && key.bytes@ == bytes,
            None => key_file_outcome(s@, file_view(*file), pubkey),
        },
{
    match pubkey_from_base58(s) {
        Some(pubkey) => Ok(pubkey),
        None => pubkey_from_key_file(s, file),
    }
}

/// The address with the given bytes.
pub open spec fn pubkey_with(bytes: Seq<u8>) -> Pubkey {
    choose|pubkey: Pubkey| pubkey.bytes@ == bytes
}

/// Whether there is an address with the given bytes.
pub open spec fn is_address(bytes: Seq<u8>) -> bool {
    pubkey_with(bytes).bytes@ == bytes
}

/// An address is the one with its bytes.
pub proof fn lemma_pubkey_with(pubkey: Pubkey)
    ensures
        pubkey_with(pubkey.bytes@) == pubkey,
        is_address(pubkey.bytes@),
{
    let chosen = pubkey_with(pubkey.bytes@);
    assert(chosen.bytes@ == pubkey.bytes@);
    assert(chosen.bytes =~= pubkey.bytes);
}

/// `text` is the text form of `pubkey`.
pub open spec fn is_text_of(text: Seq<char>, pubkey: Pubkey) -> bool {
    &&& text == pubkey_text(pubkey.bytes@)
    &&& base58_bytes(text) == Some(pubkey.bytes@)
}

/// The text form of an address is read back as that address, and no two addresses
/// share a text form.
pub proof fn text_form_is_faithful(a: Pubkey, b: Pubkey, text_a: Seq<char>, text_b: Seq<char>)
    requires
        is_text_of(text_a, a),
        is_text_of(text_b, b),
    ensures
        base58_pubkey(text_a) == Some(a.bytes@),
        text_a == text_b <==> a == b,
{
    if text_a == text_b {
        assert(a.bytes =~= b.bytes);
    }
}

/// Pieces with a comma between each and the next.
pub open spec fn joined(pieces: Seq<Seq<u8>>) -> Seq<u8>
    decreases pieces.len(),
{
    if pieces.len() == 0 {
        Seq::empty()
    } else if pieces.len() == 1 {
        pieces[0]
    } else {
        joined(pieces.drop_last()) + seq![44u8] + pieces.last()
    }
}

/// Whether no piece holds a comma.
pub open spec fn without_commas(pieces: Seq<Seq<u8>>) -> bool {
    forall|i: int| 0 <= i < pieces.len() ==> !(#[trigger] pieces[i]).contains(44u8)
}

/// The pieces of a text hold no commas and, with commas between them, are the text.
proof fn lemma_pieces_join(s: Seq<u8>)
    ensures
        comma_fields(s).len() >= 1,
        joined(comma_fields(s)) == s,
        without_commas(comma_fields(s)),
    decreases s.len(),
{
    let pieces = comma_fields(s);
    if s.len() == 0 {
        assert(s =~= Seq::empty());
    } else {
        let before = comma_fields(s.drop_last());
        lemma_pieces_join(s.drop_last());
        if s.last() == 44 {
            assert(pieces.drop_last() =~= before);
            assert(joined(pieces) =~= s);
        } else {
            assert(pieces.drop_last() =~= before.drop_last());
            if pieces.len() == 1 {
                assert(s =~= s.drop_last().push(s.last()));
            } else {
                assert(joined(before) == joined(before.drop_last()) + seq![44u8] + before.last());
                assert(joined(pieces) == joined(before.drop_last()) + seq![44u8] + pieces.last());
                assert(joined(pieces) =~= joined(before).push(s.last()));
                assert(s =~= s.drop_last().push(s.last()));
            }
            assert forall|i: int| 0 <= i < pieces.len() implies !(#[trigger] pieces[i]).contains(
                44u8,
            ) by {
                assert(!before[i].contains(44u8));
                if i == pieces.len() - 1 && pieces[i].contains(44u8) {
                    let k = choose|k: int| 0 <= k < pieces[i].len() && pieces[i][k] == 44u8;
                    assert(before[i][k] == 44u8);
                }
            }
        }
    }
}

/// Bytes without a comma behind a text belong to its last piece.
proof fn lemma_last_piece_grows(s: Seq<u8>, more: Seq<u8>)
    requires
        !more.contains(44u8),
    ensures
        comma_fields(s + more) == comma_fields(s).update(
            comma_fields(s).len() - 1,
            comma_fields(s).last() + more,
        ),
    decreases more.len(),
{
    let pieces = comma_fields(s);
    lemma_pieces_join(s);
    if more.len() == 0 {
        assert(s + more =~= s);
        assert(pieces.last() + more =~= pieces.last());
        assert(pieces.update(pieces.len() - 1, pieces.last()) =~= pieces);
    } else {
        let fewer = more.drop_last();
        assert(more[more.len() - 1] != 44u8);
        if fewer.contains(44u8) {
            let k = choose|k: int| 0 <= k < fewer.len() && fewer[k] == 44u8;
            assert(more[k] == 44u8);
        }
        lemma_last_piece_grows(s, fewer);
        assert((s + more).drop_last() =~= s + fewer);
        assert((pieces.last() + fewer).push(more.last()) =~= pieces.last() + more);
        assert(comma_fields(s + more) =~= pieces.update(pieces.len() - 1, pieces.last() + more));
    }
}

/// A text is divided at its commas and nowhere else: its pieces hold no commas and, with
/// commas between them, are the text; and pieces without commas are the pieces of the text
/// that they are with commas between them.
pub proof fn text_is_divided_at_commas(s: Seq<u8>, pieces: Seq<Seq<u8>>)
    requires
        pieces.len() > 0,
        without_commas(pieces),
    ensures
        joined(comma_fields(s)) == s,
        without_commas(comma_fields(s)),
        comma_fields(joined(pieces)) == pieces,
    decreases pieces.len(),
{
    lemma_pieces_join(s);
    let last = pieces.last();
    assert(!pieces[pieces.len() - 1].contains(44u8));
    if pieces.len() == 1 {
        lemma_last_piece_grows(Seq::empty(), last);
        assert(Seq::<u8>::empty() + last =~= last);
        assert(comma_fields(last) =~= pieces);
    } else {
        let front = pieces.drop_last();
        assert forall|i: int| 0 <= i < front.len() implies !(#[trigger] front[i]).contains(
            44u8,
        ) by {
            assert(!pieces[i].contains(44u8));
        }
        text_is_divided_at_commas(s, front);
        let ended = joined(front) + seq![44u8];
        assert(ended.drop_last() =~= joined(front));
        assert(comma_fields(ended) == front.push(Seq::empty()));
        lemma_last_piece_grows(ended, last);
        assert(joined(pieces) =~= ended + last);
        assert(Seq::<u8>::empty() + last =~= last);
        assert(comma_fields(joined(pieces)) =~= pieces);
    }
}

/// The first byte of a text is that of its first piece, or a comma if that is empty.
proof fn lemma_first_byte(pieces: Seq<Seq<u8>>)
    requires
        pieces.len() >= 1,
    ensures
        pieces[0].len() > 0 ==> {
            &&& joined(pieces).len() > 0
            &&& joined(pieces)[0] == pieces[0][0]
            &&& joined(pieces.update(0, pieces[0].drop_first())) == joined(pieces).drop_first()
        },
        pieces[0].len() == 0 && pieces.len() >= 2 ==> joined(pieces).len() > 0 && joined(pieces)[0]
            == 44,
    decreases pieces.len(),
{
    if pieces.len() >= 2 {
        let front = pieces.drop_last();
        lemma_first_byte(front);
        let opened = pieces.update(0, pieces[0].drop_first());
        assert(opened.drop_last() =~= front.update(0, front[0].drop_first()));
        assert(opened.last() == pieces.last());
        if pieces[0].len() > 0 {
            assert(joined(opened) =~= joined(pieces).drop_first());
        }
    } else if pieces[0].len() > 0 {
        assert(pieces.update(0, pieces[0].drop_first())[0] == pieces[0].drop_first());
    }
}

/// The last byte of a text is that of its last piece, or a comma if that is empty.
proof fn lemma_last_byte(pieces: Seq<Seq<u8>>)
    requires
        pieces.len() >= 2,
    ensures
        joined(pieces).len() > 0,
        pieces.last().len() > 0 ==> {
            &&& joined(pieces).last() == pieces.last().last()
            &&& joined(pieces.update(pieces.len() - 1, pieces.last().drop_last())) == joined(
                pieces,
            ).drop_last()
        },
        pieces.last().len() == 0 ==> joined(pieces).last() == 44,
{
    let closed = pieces.update(pieces.len() - 1, pieces.last().drop_last());
    assert(closed.drop_last() =~= pieces.drop_last());
    if pieces.last().len() > 0 {
        assert(joined(closed) =~= joined(pieces).drop_last());
    }
}

/// A key file without a comma is short. One that begins or ends with a comma is malformed.
/// Of any other, all but the first and the last byte is a list: if its pieces are numbers up
/// to 255 they are the bytes, in their order, and if one is not, the file is malformed.
pub proof fn key_file_is_a_bracketed_list(contents: Seq<u8>)
    ensures
        key_text(contents) is Short <==> !contents.contains(44u8),
        contents.contains(44u8) && (contents[0] == 44 || contents.last() == 44) ==> key_text(
            contents,
        ) is Malformed,
        contents.contains(44u8) && contents[0] != 44 && contents.last() != 44 ==> {
            let pieces = comma_fields(contents.subrange(1, contents.len() - 1));
            let all = forall|i: int|
                0 <= i < pieces.len() ==> (decimal_value(byte_text(#[trigger] pieces[i]))
                    matches Some(n) && n <= 255);
            &&& key_text(contents) is Bytes <==> all
            &&& key_text(contents) is Malformed <==> !all
            &&& key_text(contents) matches KeyText::Bytes(bytes) ==> {
                &&& bytes.len() == pieces.len()
                &&& forall|i: int|
                    0 <= i < bytes.len() ==> decimal_value(byte_text(pieces[i])) == Some(
                        #[trigger] bytes[i] as nat,
                    )
            }
        },
{
    let raw = comma_fields(contents);
    lemma_pieces_join(contents);
    if raw.len() < 2 {
        assert(raw[0] == contents);
    } else {
        let front = joined(raw.drop_last());
        assert(contents[front.len() as int] == 44u8);
        lemma_first_byte(raw);
        lemma_last_byte(raw);
        if raw[0].len() > 0 {
            assert(!raw[0].contains(44u8));
            assert(raw[0][0] != 44u8);
        }
        if raw.last().len() > 0 {
            assert(!raw[raw.len() - 1].contains(44u8));
            assert(raw.last()[raw.last().len() - 1] != 44u8);
        }
        if raw[0].len() > 0 && raw.last().len() > 0 {
            let opened = raw.update(0, raw[0].drop_first());
            let inner = unbracketed(raw);
            lemma_last_byte(opened);
            assert(joined(inner) =~= contents.subrange(1, contents.len() - 1));
            assert forall|i: int| 0 <= i < inner.len() implies !(#[trigger] inner[i]).contains(
                44u8,
            ) by {
                assert(!raw[i].contains(44u8));
                if inner[i].contains(44u8) {
                    let k = choose|k: int| 0 <= k < inner[i].len() && inner[i][k] == 44u8;
                    if i == 0 {
                        assert(raw[i][k + 1] == 44u8);
                    } else {
                        assert(raw[i][k] == 44u8);
                    }
                }
            }
            text_is_divided_at_commas(contents, inner);
            assert(comma_fields(contents.subrange(1, contents.len() - 1)) == inner);
            if forall|i: int|
                0 <= i < inner.len() ==> (decimal_value(byte_text(#[trigger] inner[i]))
                    matches Some(n) && n <= 255) {
                assert forall|i: int| 0 <= i < inner.len() implies is_byte_field(
                    #[trigger] inner[i],
                ) by {}
            } else {
                let i = choose|i: int|
                    0 <= i < inner.len() && !(decimal_value(byte_text(#[trigger] inner[i]))
                        matches Some(n) && n <= 255);
                assert(!is_byte_field(inner[i]));
            }
        }
    }
}

/// A text is an address exactly if it is the base58 form of 32 bytes, which are then those
/// of the address.
pub proof fn address_is_thirty_two_bytes(text: Seq<char>, bytes: Seq<u8>)
    ensures
        base58_pubkey(text) == Some(bytes) <==> base58_bytes(text) == Some(bytes) && bytes.len()
            == 32,
{
}

/// What a key file amounts to: the public key if the file lists the bytes of a keypair, and
/// otherwise what is said of it, which names the file and the reason where there is one.
pub proof fn key_file_gives_a_key_or_is_named(
    path: Seq<char>,
    file: Result<Seq<u8>, Seq<char>>,
    outcome: Result<Pubkey, KeyError>,
)
    requires
        key_file_outcome(path, file, outcome),
    ensures
        outcome matches Ok(pubkey) ==> {
            &&& file is Ok
            &&& key_text(file->Ok_0) is Bytes
            &&& keypair_public(key_text(file->Ok_0)->Bytes_0) == Ok::<Seq<u8>, Seq<char>>(
                pubkey.bytes@,
            )
        },
        outcome matches Err(error) ==> error.text() == (match file {
            Err(reason) => "Failed to read key file '"@ + path + "': "@ + reason,
            Ok(contents) => match key_text(contents) {
                KeyText::Short => "Short key file"@,
                KeyText::Malformed => "Malformed key file"@,
                KeyText::Bytes(bytes) => "Invalid key file '"@ + path + "' contents: "@
                    + keypair_public(bytes)->Err_0,
            },
        }),
        outcome matches Err(KeyError::Malformed) <==> file is Ok && key_text(
            file->Ok_0,
        ) is Malformed,
{
}

} // verus!
