//! The command line.
//!
//! Every option takes one value. The arguments are read in their order; where the
//! value of an option names a file, what the file holds is asked for before the next
//! option is read.

use vstd::prelude::*;
use vstd::string::*;

use crate::decimal::decimal_value;
use crate::keypair::Keypair;
use crate::pubkey::{
    base58_pubkey, file_view, key_text, keypair_public, lemma_pubkey_with, make_pubkey,
    pubkey_from_base58, pubkey_text, pubkey_to_string, pubkey_with, KeyError, KeyText, Pubkey,
};

verus! {

/// How many threads there are if no number is given.
pub const DEFAULT_NUM_THREADS: u32 = 8;

/// What is said of a text that is no number of 32 bits.
pub uninterp spec fn u32_error(text: Seq<char>) -> Seq<char>;

/// What is said of a text that is no number of 64 bits.
pub uninterp spec fn u64_error(text: Seq<char>) -> Seq<char>;

/// `str::parse::<u32>`, and the message of its error. It reads an optional plus sign
/// and one or more decimal digits, and fails on any other text and on a number that is
/// too large. The message depends on the text alone.
#[verifier::external_body]
fn parse_u32(text: &str) -> (number: Result<u32, String>)
    ensures
        match number {
            Ok(n) => decimal_value(text@) == Some(n as nat),
            Err(message) => {
                &&& decimal_value(text@) matches Some(n) ==> n > u32::MAX
                &&& message@ == u32_error(text@)
            },
        },
{
    text.parse::<u32>().map_err(|e| e.to_string())
}

/// `str::parse::<u64>`, and the message of its error. It reads an optional plus sign
/// and one or more decimal digits, and fails on any other text and on a number that is
/// too large. The message depends on the text alone.
#[verifier::external_body]
fn parse_u64(text: &str) -> (number: Result<u64, String>)
    ensures
        match number {
            Ok(n) => decimal_value(text@) == Some(n as nat),
            Err(message) => {
                &&& decimal_value(text@) matches Some(n) ==> n > u64::MAX
                &&& message@ == u64_error(text@)
            },
        },
{
    text.parse::<u64>().map_err(|e| e.to_string())
}

/// The number of 32 bits that a text denotes, or what is said of it.
pub open spec fn number_u32(text: Seq<char>) -> Result<u32, Seq<char>> {
    match decimal_value(text) {
        Some(n) => if n <= u32::MAX {
            Ok(n as u32)
        } else {
            Err(u32_error(text))
        },
        None => Err(u32_error(text)),
    }
}

/// The number of 64 bits that a text denotes, or what is said of it.
pub open spec fn number_u64(text: Seq<char>) -> Result<u64, Seq<char>> {
    match decimal_value(text) {
        Some(n) => if n <= u64::MAX {
            Ok(n as u64)
        } else {
            Err(u64_error(text))
        },
        None => Err(u64_error(text)),
    }
}

/// What the program is to do.
pub struct Args {
    /// The directory of the keys.
    pub keys_dir: String,
    /// The file to read the addresses of the validators from.
    pub tpu_file: String,
    /// The file that stops the program once it exists.
    pub stop_file: String,
    /// The servers.
    pub rpc_servers: Vec<String>,
    /// Where the funds of the fee payers come from.
    pub funds_source: Keypair,
    /// The programs to call, which are all copies of the test program.
    pub program_ids: Vec<Pubkey>,
    /// How many accounts there are to contend for.
    pub contention_accounts_count: u32,
    /// How many transactions to send, if their number is limited.
    pub total_transactions: Option<u64>,
    /// How many threads send transactions.
    pub num_threads: u32,
}

/// What the program is to do, as the contracts see it.
#[verifier::ext_equal]
pub ghost struct ArgsView {
    pub keys_dir: Seq<char>,
    pub tpu_file: Seq<char>,
    pub stop_file: Seq<char>,
    pub rpc_servers: Seq<Seq<char>>,
    pub funds_source: Keypair,
    pub program_ids: Seq<Pubkey>,
    pub contention_accounts_count: u32,
    pub total_transactions: Option<u64>,
    pub num_threads: u32,
}

/// Texts.
pub open spec fn texts(strings: Seq<String>) -> Seq<Seq<char>> {
    Seq::new(strings.len(), |i: int| strings[i]@)
}

/// A text, if there is one.
pub open spec fn optional_text(string: Option<String>) -> Option<Seq<char>> {
    match string {
        Some(s) => Some(s@),
        None => None,
    }
}

impl View for Args {
    type V = ArgsView;

    open spec fn view(&self) -> ArgsView {
        ArgsView {
            keys_dir: self.keys_dir@,
            tpu_file: self.tpu_file@,
            stop_file: self.stop_file@,
            rpc_servers: texts(self.rpc_servers@),
            funds_source: self.funds_source,
            program_ids: self.program_ids@,
            contention_accounts_count: self.contention_accounts_count,
            total_transactions: self.total_transactions,
            num_threads: self.num_threads,
        }
    }
}

/// What has to be read before the next option.
pub enum Wanted {
    /// Nothing.
    Nothing,
    /// The keypair in a file.
    Keypair(String),
    /// The contents of the file that a program id names.
    KeyFile(String),
}

/// What has to be read, as the contracts see it.
pub ghost enum WantedView {
    Nothing,
    Keypair(Seq<char>),
    KeyFile(Seq<char>),
}

impl View for Wanted {
    type V = WantedView;

    open spec fn view(&self) -> WantedView {
        match *self {
            Wanted::Nothing => WantedView::Nothing,
            Wanted::Keypair(path) => WantedView::Keypair(path@),
            Wanted::KeyFile(path) => WantedView::KeyFile(path@),
        }
    }
}

/// A reader of the command line.
pub struct ArgParser {
    args: Vec<String>,
    next: usize,
    keys_dir: Option<String>,
    tpu_file: Option<String>,
    stop_file: Option<String>,
    rpc_servers: Vec<String>,
    funds_source: Option<Keypair>,
    program_ids: Vec<Pubkey>,
    contention_accounts_count: Option<u32>,
    total_transactions: Option<u64>,
    num_threads: Option<u32>,
    wanted: Wanted,
}

/// A reader of the command line, as the contracts see it: the arguments that are left,
/// what was given so far, and what has to be read next.
#[verifier::ext_equal]
pub ghost struct ParserView {
    pub rest: Seq<Seq<char>>,
    pub keys_dir: Option<Seq<char>>,
    pub tpu_file: Option<Seq<char>>,
    pub stop_file: Option<Seq<char>>,
    pub rpc_servers: Seq<Seq<char>>,
    pub funds_source: Option<Keypair>,
    pub program_ids: Seq<Pubkey>,
    pub contention_accounts_count: Option<u32>,
    pub total_transactions: Option<u64>,
    pub num_threads: Option<u32>,
    pub wanted: WantedView,
}

/// The value of an option that may be given once, or what is said instead.
pub open spec fn single_value(
    given: bool,
    duplicate: Seq<char>,
    value: Option<Seq<char>>,
    missing: Seq<char>,
) -> Result<Seq<char>, Seq<char>> {
    if given {
        Err(duplicate)
    } else {
        match value {
            Some(v) => Ok(v),
            None => Err(missing),
        }
    }
}

/// The reader after one more program id, unless it was given before.
pub open spec fn with_program_id(parser: ParserView, program_id: Pubkey) -> Result<
    ParserView,
    Seq<char>,
> {
    if parser.program_ids.contains(program_id) {
        Err("Duplicate program id: "@ + pubkey_text(program_id.bytes@))
    } else {
        Ok(ParserView { program_ids: parser.program_ids.push(program_id), ..parser })
    }
}

/// The reader after an option that sets a file or a directory.
pub open spec fn with_path_option(
    parser: ParserView,
    name: Seq<char>,
    value: Option<Seq<char>>,
) -> Result<ParserView, Seq<char>> {
    if name == "--keys-dir"@ {
        match single_value(
            parser.keys_dir is Some,
            "Duplicate --keys-dir argument"@,
            value,
            "--keys-dir requires a value"@,
        ) {
            Ok(v) => Ok(ParserView { keys_dir: Some(v), ..parser }),
            Err(e) => Err(e),
        }
    } else if name == "--tpu-file"@ {
        match single_value(
            parser.tpu_file is Some,
            "Duplicate --tpu-file"@,
            value,
            "--tpu-file requires a value"@,
        ) {
            Ok(v) => Ok(ParserView { tpu_file: Some(v), ..parser }),
            Err(e) => Err(e),
        }
    } else {
        match single_value(
            parser.stop_file is Some,
            "Duplicate --stop-file"@,
            value,
            "--stop-file requires a value"@,
        ) {
            Ok(v) => Ok(ParserView { stop_file: Some(v), ..parser }),
            Err(e) => Err(e),
        }
    }
}

/// The reader after an option that names a server, the source of the funds or a
/// program.
pub open spec fn with_party_option(
    parser: ParserView,
    name: Seq<char>,
    value: Option<Seq<char>>,
) -> Result<ParserView, Seq<char>> {
    if name == "--rpc-server"@ {
        match value {
            Some(v) => Ok(ParserView { rpc_servers: parser.rpc_servers.push(v), ..parser }),
            None => Err("--rpc-server requires a value"@),
        }
    } else if name == "--funds-source"@ {
        match single_value(
            parser.funds_source is Some,
            "Duplicate --funds-source argument"@,
            value,
            "--funds-source requires a value"@,
        ) {
            Ok(v) => Ok(ParserView { wanted: WantedView::Keypair(v), ..parser }),
            Err(e) => Err(e),
        }
    } else {
        match value {
            Some(v) => match base58_pubkey(v) {
                Some(bytes) => with_program_id(parser, pubkey_with(bytes)),
                None => Ok(ParserView { wanted: WantedView::KeyFile(v), ..parser }),
            },
            None => Err("--program-id requires a value"@),
        }
    }
}

/// The reader after an option that sets a number.
pub open spec fn with_number_option(
    parser: ParserView,
    name: Seq<char>,
    value: Option<Seq<char>>,
) -> Result<ParserView, Seq<char>> {
    if name == "--contention-accounts-count"@ {
        match single_value(
            parser.contention_accounts_count is Some,
            "Duplicate --contention-accounts-count argument"@,
            value,
            "--contention-accounts-count requires a value"@,
        ) {
            Ok(v) => match number_u32(v) {
                Ok(n) => Ok(ParserView { contention_accounts_count: Some(n), ..parser }),
                Err(e) => Err(e),
            },
            Err(e) => Err(e),
        }
    } else if name == "--total-transactions"@ {
        match single_value(
            parser.total_transactions is Some,
            "Duplicate --total-transactions argument"@,
            value,
            "--total-transactions requires a value"@,
        ) {
            Ok(v) => match number_u64(v) {
                Ok(n) => Ok(ParserView { total_transactions: Some(n), ..parser }),
                Err(e) => Err(e),
            },
            Err(e) => Err(e),
        }
    } else {
        match single_value(
            parser.num_threads is Some,
            "Duplicate --num-threads argument"@,
            value,
            "--num-threads requires a value"@,
        ) {
            Ok(v) => match number_u32(v) {
                Ok(n) => Ok(ParserView { num_threads: Some(n), ..parser }),
                Err(e) => Err(e),
            },
            Err(e) => Err(e),
        }
    }
}

/// The reader after an option with a value, if there is one left, or what is said of
/// the option.
pub open spec fn with_option(
    parser: ParserView,
    name: Seq<char>,
    value: Option<Seq<char>>,
) -> Result<ParserView, Seq<char>> {
    if name == "--keys-dir"@ || name == "--tpu-file"@ || name == "--stop-file"@ {
        with_path_option(parser, name, value)
    } else if name == "--rpc-server"@ || name == "--funds-source"@ || name == "--program-id"@ {
        with_party_option(parser, name, value)
    } else if name == "--contention-accounts-count"@ || name == "--total-transactions"@ || name
        == "--num-threads"@ {
        with_number_option(parser, name, value)
    } else {
        Err("Invalid argument: "@ + name)
    }
}

/// What there is by default, where nothing is given.
pub open spec fn given_or<T>(given: Option<T>, default: T) -> T {
    match given {
        Some(v) => v,
        None => default,
    }
}

/// What the program is to do once all arguments are read, or what is said of what is
/// missing.
pub open spec fn completed(parser: ParserView) -> Result<ArgsView, Seq<char>> {
    let num_threads = given_or(parser.num_threads, DEFAULT_NUM_THREADS);
    if parser.tpu_file is None {
        Err("--tpu-file argument is required"@)
    } else if parser.funds_source is None {
        Err("--funds-source argument is required"@)
    } else if parser.program_ids.len() == 0 {
        Err("At least one program id specified via --program-id option is required"@)
    } else if num_threads == 0 {
        Err("--num-threads must takea nonzero argument"@)
    } else {
        Ok(
            ArgsView {
                keys_dir: given_or(parser.keys_dir, "./keys"@),
                tpu_file: parser.tpu_file->0,
                stop_file: given_or(parser.stop_file, "stop"@),
                rpc_servers: parser.rpc_servers,
                funds_source: parser.funds_source->0,
                program_ids: parser.program_ids,
                contention_accounts_count: given_or(
                    parser.contention_accounts_count,
                    if num_threads / 2 <= 1 {
                        num_threads / 2
                    } else {
                        1
                    },
                ),
                total_transactions: parser.total_transactions,
                num_threads,
            },
        )
    }
}

/// What reading the command line has come to.
pub enum ArgStep {
    /// The keypair in this file is wanted.
    Keypair(String),
    /// The contents of this file are wanted.
    KeyFile(String),
    /// All arguments are read.
    Complete(Args),
    /// The arguments are refused, with this message.
    Failed(String),
}

/// What reading the command line has come to, as the contracts see it.
#[verifier::ext_equal]
pub ghost enum StepView {
    Keypair(Seq<char>),
    KeyFile(Seq<char>),
    Complete(ArgsView),
    Failed(Seq<char>),
}

impl View for ArgStep {
    type V = StepView;

    open spec fn view(&self) -> StepView {
        match *self {
            ArgStep::Keypair(path) => StepView::Keypair(path@),
            ArgStep::KeyFile(path) => StepView::KeyFile(path@),
            ArgStep::Complete(args) => StepView::Complete(args@),
            ArgStep::Failed(message) => StepView::Failed(message@),
        }
    }
}

/// The arguments behind an option and its value.
pub open spec fn behind_option(rest: Seq<Seq<char>>) -> Seq<Seq<char>> {
    if rest.len() < 2 {
        Seq::empty()
    } else {
        rest.skip(2)
    }
}

/// Reads options until a file has to be read, an option is refused or none is left.
pub open spec fn advanced(parser: ParserView) -> (ParserView, StepView)
    decreases parser.rest.len(),
{
    match parser.wanted {
        WantedView::Keypair(path) => (parser, StepView::Keypair(path)),
        WantedView::KeyFile(path) => (parser, StepView::KeyFile(path)),
        WantedView::Nothing => if parser.rest.len() == 0 {
            (
                parser,
                match completed(parser) {
                    Ok(args) => StepView::Complete(args),
                    Err(message) => StepView::Failed(message),
                },
            )
        } else {
            let value = if parser.rest.len() > 1 {
                Some(parser.rest[1])
            } else {
                None
            };
            match with_option(parser, parser.rest[0], value) {
                Ok(next) => advanced(ParserView { rest: behind_option(parser.rest), ..next }),
                Err(message) => (parser, StepView::Failed(message)),
            }
        },
    }
}

/// Why the contents of a file that a program id names are refused.
#[derive(Debug, PartialEq, Eq)]
pub enum ProgramIdError {
    /// The file is no list of bytes. There is no way on from such a file.
    Malformed,
    /// The program id is refused, with this message.
    Refused(String),
}

/// The address that a text or the file that it names stands for; where there is none,
/// what is said of it, or nothing where the file is no list of bytes.
pub open spec fn key_read(path: Seq<char>, file: Result<Seq<u8>, Seq<char>>) -> Result<
    Seq<u8>,
    Option<Seq<char>>,
> {
    match base58_pubkey(path) {
        Some(bytes) => Ok(bytes),
        None => match file {
            Err(reason) => Err(Some("Failed to read key file '"@ + path + "': "@ + reason)),
            Ok(contents) => match key_text(contents) {
                KeyText::Short => Err(Some("Short key file"@)),
                KeyText::Malformed => Err(None),
                KeyText::Bytes(bytes) => match keypair_public(bytes) {
                    Ok(public) => Ok(public),
                    Err(reason) => Err(
                        Some("Invalid key file '"@ + path + "' contents: "@ + reason),
                    ),
                },
            },
        },
    }
}

/// The reader after the file that a program id names was read, or why the program id
/// is refused.
pub open spec fn with_key_file(
    parser: ParserView,
    path: Seq<char>,
    file: Result<Seq<u8>, Seq<char>>,
) -> Result<ParserView, Option<Seq<char>>> {
    match key_read(path, file) {
        Ok(bytes) => match with_program_id(
            ParserView { wanted: WantedView::Nothing, ..parser },
            pubkey_with(bytes),
        ) {
            Ok(next) => Ok(next),
            Err(message) => Err(Some(message)),
        },
        Err(reason) => Err(reason),
    }
}

/// Whether an argument is the option `name`.
fn is_option(arg: &String, name: &str) -> (is: bool)
    ensures
        is == (arg@ == name@),
{
    *arg == name.to_owned()
}

/// The value of an option that may be given once, or what is said instead.
fn take_single(given: bool, duplicate: &str, value: Option<String>, missing: &str) -> (taken:
    Result<String, String>)
    ensures
        match single_value(given, duplicate@, optional_text(value), missing@) {
            Ok(v) => taken is Ok && taken->Ok_0@ == v,
            Err(e) => taken is Err && taken->Err_0@ == e,
        },
{
    if given {
        Err(duplicate.to_owned())
    } else {
        match value {
            Some(v) => Ok(v),
            None => Err(missing.to_owned()),
        }
    }
}

/// A copy of texts.
fn clone_texts(strings: &Vec<String>) -> (copy: Vec<String>)
    ensures
        texts(copy@) == texts(strings@),
{
    let mut copy: Vec<String> = Vec::new();
    let mut i: usize = 0;
    while i < strings.len()
        invariant
            i <= strings@.len(),
            copy@.len() == i,
            forall|k: int| 0 <= k < i ==> (#[trigger] copy@[k])@ == strings@[k]@,
        decreases strings@.len() - i,
    {
        copy.push(strings[i].clone());
        i = i + 1;
    }
    assert(texts(copy@) =~= texts(strings@));
    copy
}

/// A copy of addresses.
fn clone_pubkeys(pubkeys: &Vec<Pubkey>) -> (copy: Vec<Pubkey>)
    ensures
        copy@ == pubkeys@,
{
    let mut copy: Vec<Pubkey> = Vec::new();
    let mut i: usize = 0;
    while i < pubkeys.len()
        invariant
            i <= pubkeys@.len(),
            copy@ == pubkeys@.take(i as int),
        decreases pubkeys@.len() - i,
    {
        copy.push(pubkeys[i]);
        assert(copy@ =~= pubkeys@.take(i as int + 1));
        i = i + 1;
    }
    assert(pubkeys@.take(i as int) =~= pubkeys@);
    copy
}

impl View for ArgParser {
    type V = ParserView;

    closed spec fn view(&self) -> ParserView {
        ParserView {
            rest: texts(self.args@.skip(self.next as int)),
            keys_dir: optional_text(self.keys_dir),
            tpu_file: optional_text(self.tpu_file),
            stop_file: optional_text(self.stop_file),
            rpc_servers: texts(self.rpc_servers@),
            funds_source: self.funds_source,
            program_ids: self.program_ids@,
            contention_accounts_count: self.contention_accounts_count,
            total_transactions: self.total_transactions,
            num_threads: self.num_threads,
            wanted: self.wanted@,
        }
    }
}

/// A reader that has read nothing of the arguments yet.
pub open spec fn unread(args: Seq<Seq<char>>) -> ParserView {
    ParserView {
        rest: args,
        keys_dir: None,
        tpu_file: None,
        stop_file: None,
        rpc_servers: Seq::empty(),
        funds_source: None,
        program_ids: Seq::empty(),
        contention_accounts_count: None,
        total_transactions: None,
        num_threads: None,
        wanted: WantedView::Nothing,
    }
}

impl ArgParser {
    /// The arguments that were read are among them all.
    pub closed spec fn wf(self) -> bool {
        self.next <= self.args@.len()
    }

    /// A reader of these arguments, which do not include the name of the program.
    pub fn new(args: Vec<String>) -> (parser: ArgParser)
        ensures
            parser.wf(),
            parser@ == unread(texts(args@)),
    {
        let parser = ArgParser {
            args,
            next: 0,
            keys_dir: None,
            tpu_file: None,
            stop_file: None,
            rpc_servers: Vec::new(),
            funds_source: None,
            program_ids: Vec::new(),
            contention_accounts_count: None,
            total_transactions: None,
            num_threads: None,
            wanted: Wanted::Nothing,
        };
        assert(args@.skip(0) =~= args@);
        assert(texts(parser.rpc_servers@) =~= Seq::empty());
        assert(parser@ =~= unread(texts(args@)));
        parser
    }

    /// Adds a program id, unless it was given before.
    fn add_program_id(&mut self, program_id: Pubkey) -> (added: Result<(), String>)
        requires
            old(self).wf(),
        ensures
            final(self).wf(),
            final(self).args == old(self).args,
            final(self).next == old(self).next,
            match with_program_id(old(self)@, program_id) {
                Ok(next) => added is Ok && final(self)@ == next,
                Err(message) => added is Err && added->Err_0@ == message && final(self)@ == old(
                    self,
                )@,
            },
    {
        let mut i: usize = 0;
        while i < self.program_ids.len()
            invariant
                self.wf(),
                self@ == old(self)@,
                self.args == old(self).args,
                self.next == old(self).next,
                i <= self.program_ids@.len(),
                self@.program_ids == self.program_ids@,
                forall|k: int| 0 <= k < i ==> #[trigger] self.program_ids@[k] != program_id,
            decreases self.program_ids@.len() - i,
        {
            if self.program_ids[i].same(&program_id) {
                assert(self@.program_ids[i as int] == program_id);
                let mut message = "Duplicate program id: ".to_owned();
                message.append(pubkey_to_string(&program_id).as_str());
                return Err(message);
            }
            i = i + 1;
        }
        self.program_ids.push(program_id);
        assert(self@ =~= ParserView {
            program_ids: old(self)@.program_ids.push(program_id),
            ..old(self)@
        });
        Ok(())
    }

    /// Reads an option that sets a file or a directory.
    fn read_path_option(&mut self, name: &String, value: Option<String>) -> (read: Result<
        (),
        String,
    >)
        requires
            old(self).wf(),
        ensures
            final(self).wf(),
            final(self).args == old(self).args,
            final(self).next == old(self).next,
            match with_path_option(old(self)@, name@, optional_text(value)) {
                Ok(next) => read is Ok && final(self)@ == next,
                Err(message) => read is Err && read->Err_0@ == message && final(self)@ == old(
                    self,
                )@,
            },
    {
        if is_option(name, "--keys-dir") {
            let text = take_single(
                self.keys_dir.is_some(),
                "Duplicate --keys-dir argument",
                value,
                "--keys-dir requires a value",
            )?;
            self.keys_dir = Some(text);
        } else if is_option(name, "--tpu-file") {
            let text = take_single(
                self.tpu_file.is_some(),
                "Duplicate --tpu-file",
                value,
                "--tpu-file requires a value",
            )?;
            self.tpu_file = Some(text);
        } else {
            let text = take_single(
                self.stop_file.is_some(),
                "Duplicate --stop-file",
                value,
                "--stop-file requires a value",
            )?;
            self.stop_file = Some(text);
        }
        Ok(())
    }

    /// Reads an option that names a server, the source of the funds or a program.
    fn read_party_option(&mut self, name: &String, value: Option<String>) -> (read: Result<
        (),
        String,
    >)
        requires
            old(self).wf(),
        ensures
            final(self).wf(),
            final(self).args == old(self).args,
            final(self).next == old(self).next,
            match with_party_option(old(self)@, name@, optional_text(value)) {
                Ok(next) => read is Ok && final(self)@ == next,
                Err(message) => read is Err && read->Err_0@ == message && final(self)@ == old(
                    self,
                )@,
            },
    {
        if is_option(name, "--rpc-server") {
            match value {
                Some(text) => {
                    self.rpc_servers.push(text);
                    assert(texts(self.rpc_servers@) =~= old(self)@.rpc_servers.push(text@));
                    Ok(())
                },
                None => Err("--rpc-server requires a value".to_owned()),
            }
        } else if is_option(name, "--funds-source") {
            let text = take_single(
                self.funds_source.is_some(),
                "Duplicate --funds-source argument",
                value,
                "--funds-source requires a value",
            )?;
            self.wanted = Wanted::Keypair(text);
            Ok(())
        } else {
            match value {
                Some(text) => match pubkey_from_base58(text.as_str()) {
                    Some(program_id) => {
                        proof {
                            lemma_pubkey_with(program_id);
                        }
                        self.add_program_id(program_id)
                    },
                    None => {
                        self.wanted = Wanted::KeyFile(text);
                        Ok(())
                    },
                },
                None => Err("--program-id requires a value".to_owned()),
            }
        }
    }

    /// Reads an option that sets a number.
    fn read_number_option(&mut self, name: &String, value: Option<String>) -> (read: Result<
        (),
        String,
    >)
        requires
            old(self).wf(),
        ensures
            final(self).wf(),
            final(self).args == old(self).args,
            final(self).next == old(self).next,
            match with_number_option(old(self)@, name@, optional_text(value)) {
                Ok(next) => read is Ok && final(self)@ == next,
                Err(message) => read is Err && read->Err_0@ == message && final(self)@ == old(
                    self,
                )@,
            },
    {
        if is_option(name, "--contention-accounts-count") {
            let text = take_single(
                self.contention_accounts_count.is_some(),
                "Duplicate --contention-accounts-count argument",
                value,
                "--contention-accounts-count requires a value",
            )?;
            self.contention_accounts_count = Some(parse_u32(text.as_str())?);
        } else if is_option(name, "--total-transactions") {
            let text = take_single(
                self.total_transactions.is_some(),
                "Duplicate --total-transactions argument",
                value,
                "--total-transactions requires a value",
            )?;
            self.total_transactions = Some(parse_u64(text.as_str())?);
        } else {
            let text = take_single(
                self.num_threads.is_some(),
                "Duplicate --num-threads argument",
                value,
                "--num-threads requires a value",
            )?;
            self.num_threads = Some(parse_u32(text.as_str())?);
        }
        Ok(())
    }

    /// Reads an option with its value.
    fn read_option(&mut self, name: &String, value: Option<String>) -> (read: Result<(), String>)
        requires
            old(self).wf(),
        ensures
            final(self).wf(),
            final(self).args == old(self).args,
            final(self).next == old(self).next,
            match with_option(old(self)@, name@, optional_text(value)) {
                Ok(next) => read is Ok && final(self)@ == next,
                Err(message) => read is Err && read->Err_0@ == message && final(self)@ == old(
                    self,
                )@,
            },
    {
        if is_option(name, "--keys-dir") || is_option(name, "--tpu-file") || is_option(
            name,
            "--stop-file",
        ) {
            self.read_path_option(name, value)
        } else if is_option(name, "--rpc-server") || is_option(name, "--funds-source") || is_option(
            name,
            "--program-id",
        ) {
            self.read_party_option(name, value)
        } else if is_option(name, "--contention-accounts-count") || is_option(
            name,
            "--total-transactions",
        ) || is_option(name, "--num-threads") {
            self.read_number_option(name, value)
        } else {
            let mut message = "Invalid argument: ".to_owned();
            message.append(name.as_str());
            Err(message)
        }
    }

    /// What the program is to do, as far as the arguments say, or what is said of what
    /// is missing.
    pub fn finish(&self) -> (args: Result<Args, String>)
        ensures
            match completed(self@) {
                Ok(expected) => args is Ok && args->Ok_0@ == expected,
                Err(message) => args is Err && args->Err_0@ == message,
            },
    {
        let tpu_file: String = match &self.tpu_file {
            Some(file) => file.clone(),
            None => {
                return Err("--tpu-file argument is required".to_owned());
            },
        };
        let funds_source: Keypair = match self.funds_source {
            Some(keypair) => keypair,
            None => {
                return Err("--funds-source argument is required".to_owned());
            },
        };
        if self.program_ids.len() == 0 {
            return Err(
                "At least one program id specified via --program-id option is required".to_owned(),
            );
        }
        let num_threads: u32 = match self.num_threads {
            Some(n) => n,
            None => DEFAULT_NUM_THREADS,
        };
        if num_threads == 0 {
            return Err("--num-threads must takea nonzero argument".to_owned());
        }
        let keys_dir: String = match &self.keys_dir {
            Some(dir) => dir.clone(),
            None => "./keys".to_owned(),
        };
        let stop_file: String = match &self.stop_file {
            Some(file) => file.clone(),
            None => "stop".to_owned(),
        };
        let contention_accounts_count: u32 = match self.contention_accounts_count {
            Some(n) => n,
            None => if num_threads / 2 <= 1 {
                num_threads / 2
            } else {
                1
            },
        };
        Ok(
            Args {
                keys_dir,
                tpu_file,
                stop_file,
                rpc_servers: clone_texts(&self.rpc_servers),
                funds_source,
                program_ids: clone_pubkeys(&self.program_ids),
                contention_accounts_count,
                total_transactions: self.total_transactions,
                num_threads,
            },
        )
    }

    /// Reads options until a file has to be read, an option is refused or none is left.
    pub fn advance(&mut self) -> (step: ArgStep)
        requires
            old(self).wf(),
        ensures
            final(self).wf(),
            (final(self)@, step@) == advanced(old(self)@),
    {
        loop
            invariant
                self.wf(),
                advanced(self@) == advanced(old(self)@),
            decreases self.args@.len() - self.next,
        {
            match &self.wanted {
                Wanted::Keypair(path) => {
                    return ArgStep::Keypair(path.clone());
                },
                Wanted::KeyFile(path) => {
                    return ArgStep::KeyFile(path.clone());
                },
                Wanted::Nothing => {},
            }
            if self.next == self.args.len() {
                return match self.finish() {
                    Ok(args) => ArgStep::Complete(args),
                    Err(message) => ArgStep::Failed(message),
                };
            }
            let ghost before: ParserView = self@;
            let name: String = self.args[self.next].clone();
            let value: Option<String> = if self.args.len() - self.next > 1 {
                Some(self.args[self.next + 1].clone())
            } else {
                None
            };
            assert(before.rest[0] == name@);
            match self.read_option(&name, value) {
                Ok(()) => {
                    self.next = self.next + 2;
                    assert(self@.rest =~= behind_option(before.rest));
                },
                Err(message) => {
                    return ArgStep::Failed(message);
                },
            }
        }
    }

    /// Hands in the keypair that was wanted.
    pub fn supply_keypair(&mut self, keypair: Keypair)
        requires
            old(self).wf(),
        ensures
            final(self).wf(),
            final(self)@ == match old(self)@.wanted {
                WantedView::Keypair(_) => ParserView {
                    funds_source: Some(keypair),
                    wanted: WantedView::Nothing,
                    ..old(self)@
                },
                _ => old(self)@,
            },
    {
        if let Wanted::Keypair(_) = &self.wanted {
            self.funds_source = Some(keypair);
            self.wanted = Wanted::Nothing;
        }
    }

    /// Hands in the contents of the file that was wanted, or why it could not be read.
    pub fn supply_key_file(&mut self, file: &Result<Vec<u8>, String>) -> (read: Result<
        (),
        ProgramIdError,
    >)
        requires
            old(self).wf(),
        ensures
            final(self).wf(),
            match old(self)@.wanted {
                WantedView::KeyFile(path) => match with_key_file(
                    old(self)@,
                    path,
                    file_view(*file),
                ) {
                    Ok(next) => read is Ok && final(self)@ == next,
                    Err(Some(message)) => {
                        &&& read matches Err(ProgramIdError::Refused(m)) && m@ == message
                        &&& final(self)@ == old(self)@
                    },
                    Err(None) => {
                        &&& read == Err::<(), ProgramIdError>(ProgramIdError::Malformed)
                        &&& final(self)@ == old(self)@
                    },
                },
                _ => read is Ok && final(self)@ == old(self)@,
            },
    {
        let path: String = match &self.wanted {
            Wanted::KeyFile(path) => path.clone(),
            _ => {
                return Ok(());
            },
        };
        match make_pubkey(path.as_str(), file) {
            Ok(program_id) => {
                proof {
                    lemma_pubkey_with(program_id);
                }
                match self.add_program_id(program_id) {
                    Ok(()) => {
                        self.wanted = Wanted::Nothing;
                        Ok(())
                    },
                    Err(message) => Err(ProgramIdError::Refused(message)),
                }
            },
            Err(KeyError::Malformed) => Err(ProgramIdError::Malformed),
            Err(error) => Err(ProgramIdError::Refused(error.message())),
        }
    }
}

/// No program id is listed twice.
pub open spec fn distinct_program_ids(parser: ParserView) -> bool {
    parser.program_ids.no_duplicates()
}

/// No program id is ever listed twice: where none is, none is after reading options or
/// a file.
pub proof fn program_ids_stay_distinct(
    parser: ParserView,
    path: Seq<char>,
    file: Result<Seq<u8>, Seq<char>>,
)
    requires
        distinct_program_ids(parser),
    ensures
        distinct_program_ids(advanced(parser).0),
        advanced(parser).1 matches StepView::Complete(args) ==> args.program_ids.no_duplicates(),
        with_key_file(parser, path, file) matches Ok(next) ==> distinct_program_ids(next),
    decreases parser.rest.len(),
{
    if parser.wanted is Nothing && parser.rest.len() > 0 {
        let value = if parser.rest.len() > 1 {
            Some(parser.rest[1])
        } else {
            None
        };
        match with_option(parser, parser.rest[0], value) {
            Ok(next) => {
                program_ids_stay_distinct(
                    ParserView { rest: behind_option(parser.rest), ..next },
                    path,
                    file,
                );
            },
            Err(_) => {},
        }
    }
}

/// Arguments that are accepted name a program and ask for at least one thread; unless
/// they say otherwise there are eight threads, half as many accounts to contend for as
/// threads but at most one, the keys are in `./keys`, and the file `stop` stops the
/// program.
pub proof fn accepted_args_are_complete(parser: ParserView)
    ensures
        completed(parser) matches Ok(args) ==> {
            &&& args.program_ids.len() > 0
            &&& args.num_threads > 0
            &&& parser.num_threads is None ==> args.num_threads == 8
            &&& parser.contention_accounts_count is None ==> args.contention_accounts_count
                == if args.num_threads == 1 {
                0int
            } else {
                1int
            }
            &&& parser.keys_dir is None ==> args.keys_dir == "./keys"@
            &&& parser.stop_file is None ==> args.stop_file == "stop"@
        },
{
}

/// Each value that was given is what the program is told: accepted arguments keep the
/// numbers, the files, the servers and the programs that the options set.
pub proof fn given_values_are_kept(parser: ParserView)
    ensures
        completed(parser) matches Ok(args) ==> {
            &&& parser.contention_accounts_count matches Some(n) ==> args.contention_accounts_count
                == n
            &&& parser.num_threads matches Some(n) ==> args.num_threads == n
            &&& parser.total_transactions == args.total_transactions
            &&& parser.keys_dir matches Some(path) ==> args.keys_dir == path
            &&& parser.stop_file matches Some(path) ==> args.stop_file == path
            &&& parser.tpu_file == Some(args.tpu_file)
            &&& parser.funds_source == Some(args.funds_source)
            &&& parser.rpc_servers == args.rpc_servers
            &&& parser.program_ids == args.program_ids
        },
{
}

/// Arguments are accepted exactly if they name a file of validators, a source of the funds
/// and a program and do not ask for no threads; the first of these that is missing is told.
pub proof fn what_is_missing_is_told(parser: ParserView)
    ensures
        completed(parser) is Ok <==> parser.tpu_file is Some && parser.funds_source is Some
            && parser.program_ids.len() > 0 && parser.num_threads != Some(0u32),
        completed(parser) matches Err(message) ==> message == if parser.tpu_file is None {
            "--tpu-file argument is required"@
        } else if parser.funds_source is None {
            "--funds-source argument is required"@
        } else if parser.program_ids.len() == 0 {
            "At least one program id specified via --program-id option is required"@
        } else {
            "--num-threads must takea nonzero argument"@
        },
{
}

/// The names of the options, letter by letter where they are equally long.
proof fn lemma_option_names()
    ensures
        "--keys-dir"@.len() == 10,
        "--tpu-file"@.len() == 10,
        "--stop-file"@.len() == 11,
        "--rpc-server"@.len() == 12,
        "--funds-source"@.len() == 14,
        "--program-id"@.len() == 12,
        "--contention-accounts-count"@.len() == 27,
        "--total-transactions"@.len() == 20,
        "--num-threads"@.len() == 13,
        "--keys-dir"@ != "--tpu-file"@,
        "--rpc-server"@ != "--program-id"@,
{
    reveal_strlit("--keys-dir");
    reveal_strlit("--tpu-file");
    reveal_strlit("--stop-file");
    reveal_strlit("--rpc-server");
    reveal_strlit("--funds-source");
    reveal_strlit("--program-id");
    reveal_strlit("--contention-accounts-count");
    reveal_strlit("--total-transactions");
    reveal_strlit("--num-threads");
    assert("--keys-dir"@[2] != "--tpu-file"@[2]);
    assert("--rpc-server"@[2] != "--program-id"@[2]);
}

/// An option sets its own value to the text that stands behind it, or to the number that
/// the text denotes, and leaves everything else as it was; a server is listed behind those
/// before it.
pub proof fn option_sets_its_own_value(parser: ParserView, value: Seq<char>)
    ensures
        parser.keys_dir is None ==> with_option(parser, "--keys-dir"@, Some(value)) == Ok::<
            ParserView,
            Seq<char>,
        >(ParserView { keys_dir: Some(value), ..parser }),
        parser.tpu_file is None ==> with_option(parser, "--tpu-file"@, Some(value)) == Ok::<
            ParserView,
            Seq<char>,
        >(ParserView { tpu_file: Some(value), ..parser }),
        parser.stop_file is None ==> with_option(parser, "--stop-file"@, Some(value)) == Ok::<
            ParserView,
            Seq<char>,
        >(ParserView { stop_file: Some(value), ..parser }),
        with_option(parser, "--rpc-server"@, Some(value)) == Ok::<ParserView, Seq<char>>(
            ParserView { rpc_servers: parser.rpc_servers + seq![value], ..parser },
        ),
        parser.funds_source is None ==> with_option(parser, "--funds-source"@, Some(value)) == Ok::<
            ParserView,
            Seq<char>,
        >(ParserView { wanted: WantedView::Keypair(value), ..parser }),
        base58_pubkey(value) is None ==> with_option(parser, "--program-id"@, Some(value)) == Ok::<
            ParserView,
            Seq<char>,
        >(ParserView { wanted: WantedView::KeyFile(value), ..parser }),
        forall|n: u32|
            decimal_value(value) == Some(n as nat) && parser.contention_accounts_count is None
                ==> #[trigger] with_option(
                parser,
                "--contention-accounts-count"@,
                Some(value),
            ) == Ok::<ParserView, Seq<char>>(
                ParserView { contention_accounts_count: Some(n), ..parser },
            ),
        forall|n: u64|
            decimal_value(value) == Some(n as nat) && parser.total_transactions is None
                ==> #[trigger] with_option(parser, "--total-transactions"@, Some(value)) == Ok::<
                ParserView,
                Seq<char>,
            >(ParserView { total_transactions: Some(n), ..parser }),
        forall|n: u32|
            decimal_value(value) == Some(n as nat) && parser.num_threads is None
                ==> #[trigger] with_option(parser, "--num-threads"@, Some(value)) == Ok::<
                ParserView,
                Seq<char>,
            >(ParserView { num_threads: Some(n), ..parser }),
{
    lemma_option_names();
    assert(parser.rpc_servers.push(value) =~= parser.rpc_servers + seq![value]);
}

/// A program id that is an address is listed behind those before it if it was not given
/// before; if it was, it is refused with its text.
pub proof fn program_is_listed_once(parser: ParserView, value: Seq<char>)
    requires
        base58_pubkey(value) is Some,
    ensures
        ({
            let program_id = pubkey_with(base58_pubkey(value)->0);
            let next = with_option(parser, "--program-id"@, Some(value));
            &&& !parser.program_ids.contains(program_id) ==> next == Ok::<ParserView, Seq<char>>(
                ParserView { program_ids: parser.program_ids + seq![program_id], ..parser },
            )
            &&& parser.program_ids.contains(program_id) ==> next == Err::<ParserView, Seq<char>>(
                "Duplicate program id: "@ + pubkey_text(program_id.bytes@),
            )
        }),
{
    lemma_option_names();
    let program_id = pubkey_with(base58_pubkey(value)->0);
    assert(parser.program_ids.push(program_id) =~= parser.program_ids + seq![program_id]);
}

/// A number option takes the texts that denote numbers of its width, and no others; what
/// is said of another text is what is said of it as such a number.
pub proof fn other_texts_are_no_numbers(parser: ParserView, value: Seq<char>)
    requires
        parser.contention_accounts_count is None,
        parser.total_transactions is None,
        parser.num_threads is None,
    ensures
        decimal_value(value) is None || decimal_value(value)->0 > 4_294_967_295 ==> {
            &&& with_option(parser, "--contention-accounts-count"@, Some(value)) == Err::<
                ParserView,
                Seq<char>,
            >(u32_error(value))
            &&& with_option(parser, "--num-threads"@, Some(value)) == Err::<ParserView, Seq<char>>(
                u32_error(value),
            )
        },
        decimal_value(value) is None || decimal_value(value)->0 > 18_446_744_073_709_551_615
            ==> with_option(parser, "--total-transactions"@, Some(value)) == Err::<
            ParserView,
            Seq<char>,
        >(u64_error(value)),
{
    lemma_option_names();
}

/// The last argument can be no option: one that stands there is refused by its name, as its
/// value is missing.
pub proof fn option_without_a_value_is_refused(parser: ParserView)
    requires
        parser.keys_dir is None,
        parser.tpu_file is None,
        parser.stop_file is None,
        parser.funds_source is None,
        parser.contention_accounts_count is None,
        parser.total_transactions is None,
        parser.num_threads is None,
    ensures
        forall|name: Seq<char>|
            name == "--keys-dir"@ || name == "--tpu-file"@ || name == "--stop-file"@ || name
                == "--rpc-server"@ || name == "--funds-source"@ || name == "--program-id"@ || name
                == "--contention-accounts-count"@ || name == "--total-transactions"@ || name
                == "--num-threads"@ ==> #[trigger] with_option(parser, name, None) == Err::<
                ParserView,
                Seq<char>,
            >(name + " requires a value"@),
{
    lemma_option_names();
    reveal_strlit("--keys-dir");
    reveal_strlit("--tpu-file");
    reveal_strlit("--stop-file");
    reveal_strlit("--rpc-server");
    reveal_strlit("--funds-source");
    reveal_strlit("--program-id");
    reveal_strlit("--contention-accounts-count");
    reveal_strlit("--total-transactions");
    reveal_strlit("--num-threads");
    reveal_strlit(" requires a value");
    reveal_strlit("--keys-dir requires a value");
    reveal_strlit("--tpu-file requires a value");
    reveal_strlit("--stop-file requires a value");
    reveal_strlit("--rpc-server requires a value");
    reveal_strlit("--funds-source requires a value");
    reveal_strlit("--program-id requires a value");
    reveal_strlit("--contention-accounts-count requires a value");
    reveal_strlit("--total-transactions requires a value");
    reveal_strlit("--num-threads requires a value");
    assert("--keys-dir requires a value"@ =~= "--keys-dir"@ + " requires a value"@);
    assert("--tpu-file requires a value"@ =~= "--tpu-file"@ + " requires a value"@);
    assert("--stop-file requires a value"@ =~= "--stop-file"@ + " requires a value"@);
    assert("--rpc-server requires a value"@ =~= "--rpc-server"@ + " requires a value"@);
    assert("--funds-source requires a value"@ =~= "--funds-source"@ + " requires a value"@);
    assert("--program-id requires a value"@ =~= "--program-id"@ + " requires a value"@);
    assert("--contention-accounts-count requires a value"@ =~= "--contention-accounts-count"@
        + " requires a value"@);
    assert("--total-transactions requires a value"@ =~= "--total-transactions"@
        + " requires a value"@);
    assert("--num-threads requires a value"@ =~= "--num-threads"@ + " requires a value"@);
}

/// An option that may be given once is refused the second time, whatever value it has and
/// whether it has one.
pub proof fn option_given_twice_is_refused(parser: ParserView, value: Option<Seq<char>>)
    ensures
        parser.keys_dir is Some ==> with_option(parser, "--keys-dir"@, value) == Err::<
            ParserView,
            Seq<char>,
        >("Duplicate --keys-dir argument"@),
        parser.tpu_file is Some ==> with_option(parser, "--tpu-file"@, value) == Err::<
            ParserView,
            Seq<char>,
        >("Duplicate --tpu-file"@),
        parser.stop_file is Some ==> with_option(parser, "--stop-file"@, value) == Err::<
            ParserView,
            Seq<char>,
        >("Duplicate --stop-file"@),
        parser.funds_source is Some ==> with_option(parser, "--funds-source"@, value) == Err::<
            ParserView,
            Seq<char>,
        >("Duplicate --funds-source argument"@),
        parser.contention_accounts_count is Some ==> with_option(
            parser,
            "--contention-accounts-count"@,
            value,
        ) == Err::<ParserView, Seq<char>>("Duplicate --contention-accounts-count argument"@),
        parser.total_transactions is Some ==> with_option(parser, "--total-transactions"@, value)
            == Err::<ParserView, Seq<char>>("Duplicate --total-transactions argument"@),
        parser.num_threads is Some ==> with_option(parser, "--num-threads"@, value) == Err::<
            ParserView,
            Seq<char>,
        >("Duplicate --num-threads argument"@),
{
    lemma_option_names();
}

/// A name that is no option's is refused, with the name.
pub proof fn unknown_option_is_refused(
    parser: ParserView,
    name: Seq<char>,
    value: Option<Seq<char>>,
)
    requires
        name != "--keys-dir"@,
        name != "--tpu-file"@,
        name != "--stop-file"@,
        name != "--rpc-server"@,
        name != "--funds-source"@,
        name != "--program-id"@,
        name != "--contention-accounts-count"@,
        name != "--total-transactions"@,
        name != "--num-threads"@,
    ensures
        with_option(parser, name, value) == Err::<ParserView, Seq<char>>(
            "Invalid argument: "@ + name,
        ),
{
}

/// Arguments are read from the front, an option and its value at a time: reading stops at
/// the first option that is refused, with what is said of it, and goes on behind one that
/// is taken; where nothing is left, the arguments are completed.
pub proof fn arguments_are_read_from_the_front(
    parser: ParserView,
    name: Seq<char>,
    value: Seq<char>,
    rest: Seq<Seq<char>>,
)
    requires
        parser.wanted is Nothing,
    ensures
        ({
            let more = ParserView { rest: seq![name, value] + rest, ..parser };
            match with_option(more, name, Some(value)) {
                Ok(next) => advanced(more) == advanced(ParserView { rest, ..next }),
                Err(message) => advanced(more).1 == StepView::Failed(message),
            }
        }),
        ({
            let single = ParserView { rest: seq![name], ..parser };
            match with_option(single, name, None) {
                Ok(next) => advanced(single) == advanced(ParserView { rest: Seq::empty(), ..next }),
                Err(message) => advanced(single).1 == StepView::Failed(message),
            }
        }),
        ({
            let all = ParserView { rest: Seq::empty(), ..parser };
            match completed(all) {
                Ok(args) => advanced(all).1 == StepView::Complete(args),
                Err(message) => advanced(all).1 == StepView::Failed(message),
            }
        }),
{
    let all = seq![name, value] + rest;
    assert(behind_option(all) =~= rest);
    assert(all[0] == name && all[1] == value);
}

/// Whether a text and the file that it names are read as the address with these bytes.
pub open spec fn is_read_as(
    path: Seq<char>,
    file: Result<Seq<u8>, Seq<char>>,
    public: Seq<u8>,
) -> bool {
    key_read(path, file) == Ok::<Seq<u8>, Option<Seq<char>>>(public)
}

/// What is said of the file at `path` if its bytes are no keypair.
pub open spec fn said_of(path: Seq<char>, reason: Seq<char>) -> Seq<char> {
    "Invalid key file '"@ + path + "' contents: "@ + reason
}

/// What stands for a program: the address that the text is, whatever the file holds; if it
/// is none, the public key of the keypair whose bytes the file lists. Otherwise what is
/// said names the text and the reason, or nothing is said of a file that is no list.
pub proof fn program_is_named_by_address_or_file(
    path: Seq<char>,
    file: Result<Seq<u8>, Seq<char>>,
)
    ensures
        base58_pubkey(path) matches Some(bytes) ==> key_read(path, file) == Ok::<
            Seq<u8>,
            Option<Seq<char>>,
        >(bytes),
        base58_pubkey(path) is None ==> {
            &&& forall|public: Seq<u8>| #[trigger]
                is_read_as(path, file, public) <==> (exists|contents: Seq<u8>, bytes: Seq<u8>|
                    file == Ok::<Seq<u8>, Seq<char>>(contents) && #[trigger] key_text(contents)
                        == KeyText::Bytes(bytes) && #[trigger] keypair_public(bytes) == Ok::<
                        Seq<u8>,
                        Seq<char>,
                    >(public))
            &&& file matches Err(reason) ==> key_read(path, file) == Err::<
                Seq<u8>,
                Option<Seq<char>>,
            >(Some("Failed to read key file '"@ + path + "': "@ + reason))
            &&& file matches Ok(contents) ==> {
                &&& key_text(contents) is Short ==> key_read(path, file) == Err::<
                    Seq<u8>,
                    Option<Seq<char>>,
                >(Some("Short key file"@))
                &&& key_text(contents) is Malformed ==> key_read(path, file) == Err::<
                    Seq<u8>,
                    Option<Seq<char>>,
                >(None)
                &&& forall|bytes: Seq<u8>, reason: Seq<char>|
                    key_text(contents) == KeyText::Bytes(bytes) && #[trigger] keypair_public(bytes)
                        == Err::<Seq<u8>, Seq<char>>(reason) ==> key_read(path, file) == Err::<
                        Seq<u8>,
                        Option<Seq<char>>,
                    >(Some(#[trigger] said_of(path, reason)))
            }
        },
{
    assert forall|public: Seq<u8>| base58_pubkey(path) is None implies #[trigger] is_read_as(
        path,
        file,
        public,
    ) == (exists|contents: Seq<u8>, bytes: Seq<u8>|
        file == Ok::<Seq<u8>, Seq<char>>(contents) && #[trigger] key_text(contents)
            == KeyText::Bytes(bytes) && #[trigger] keypair_public(bytes) == Ok::<
            Seq<u8>,
            Seq<char>,
        >(public)) by {
        if is_read_as(path, file, public) {
            let contents = file->Ok_0;
            let bytes = key_text(contents)->Bytes_0;
            assert(file == Ok::<Seq<u8>, Seq<char>>(contents) && key_text(contents)
                == KeyText::Bytes(bytes) && keypair_public(bytes) == Ok::<Seq<u8>, Seq<char>>(
                public,
            ));
        }
    }
}

/// A program that a file names is listed behind those before it if it was not given before,
/// and then nothing is wanted any more; if it was, it is refused with its text.
pub proof fn program_of_a_file_is_listed_once(
    parser: ParserView,
    path: Seq<char>,
    file: Result<Seq<u8>, Seq<char>>,
)
    ensures
        match key_read(path, file) {
            Ok(bytes) => {
                let program_id = pubkey_with(bytes);
                &&& !parser.program_ids.contains(program_id) ==> with_key_file(parser, path, file)
                    == Ok::<ParserView, Option<Seq<char>>>(
                    ParserView {
                        program_ids: parser.program_ids + seq![program_id],
                        wanted: WantedView::Nothing,
                        ..parser
                    },
                )
                &&& parser.program_ids.contains(program_id) ==> with_key_file(parser, path, file)
                    == Err::<ParserView, Option<Seq<char>>>(
                    Some("Duplicate program id: "@ + pubkey_text(program_id.bytes@)),
                )
            },
            Err(said) => with_key_file(parser, path, file) == Err::<
                ParserView,
                Option<Seq<char>>,
            >(said),
        },
{
    if let Ok(bytes) = key_read(path, file) {
        let program_id = pubkey_with(bytes);
        assert(parser.program_ids.push(program_id) =~= parser.program_ids + seq![program_id]);
    }
}

/// Texts are listed one for one, in their order.
pub proof fn texts_are_listed_in_order(strings: Seq<String>, i: int)
    requires
        0 <= i < strings.len(),
    ensures
        texts(strings).len() == strings.len(),
        texts(strings)[i] == strings[i]@,
        optional_text(Some(strings[i])) == Some(strings[i]@),
        optional_text(None::<String>) is None,
{
}

} // verus!
