//! What a row of options comes to: the values of each option, whatever the order of
//! the options.

use vstd::prelude::*;

use crate::args::{
    advanced, behind_option, completed, key_read, number_u32, number_u64, unread, with_key_file,
    with_option, ArgsView, ParserView, StepView, WantedView,
};
use crate::keypair::Keypair;
use crate::pubkey::{pubkey_with, Pubkey};

verus! {

/// What the files hold that arguments name: the keypair, if there is one, and the
/// contents, or why they cannot be read.
pub ghost struct Files {
    pub keypair: spec_fn(Seq<char>) -> Option<Keypair>,
    pub contents: spec_fn(Seq<char>) -> Result<Seq<u8>, Seq<char>>,
}

/// The reader after the keypair that was wanted was handed in.
pub open spec fn with_keypair(parser: ParserView, keypair: Keypair) -> ParserView {
    ParserView { funds_source: Some(keypair), wanted: WantedView::Nothing, ..parser }
}

/// Reading goes on: no arguments come back, and before a file is wanted an option was
/// read.
pub proof fn lemma_advanced(parser: ParserView)
    ensures
        advanced(parser).0.rest.len() <= parser.rest.len(),
        parser.wanted is Nothing && (advanced(parser).1 is Keypair || advanced(parser).1 is KeyFile)
            ==> advanced(parser).0.rest.len() < parser.rest.len(),
        parser.wanted !is Nothing ==> advanced(parser).0 == parser,
    decreases parser.rest.len(),
{
    if parser.wanted is Nothing && parser.rest.len() > 0 {
        let value = if parser.rest.len() > 1 {
            Some(parser.rest[1])
        } else {
            None
        };
        match with_option(parser, parser.rest[0], value) {
            Ok(next) => {
                lemma_advanced(ParserView { rest: behind_option(parser.rest), ..next });
            },
            Err(_) => {},
        }
    }
}

/// What reading all the arguments comes to, if they are accepted.
pub open spec fn outcome(parser: ParserView, files: Files) -> Option<ArgsView>
    decreases
            parser.rest.len(),
            (if parser.wanted is Nothing {
                0int
            } else {
                1int
            }),
{
    proof {
        lemma_advanced(parser);
    }
    let (next, step) = advanced(parser);
    match step {
        StepView::Complete(args) => Some(args),
        StepView::Failed(_) => None,
        StepView::Keypair(path) => match (files.keypair)(path) {
            Some(keypair) => outcome(with_keypair(next, keypair), files),
            None => None,
        },
        StepView::KeyFile(path) => match with_key_file(next, path, (files.contents)(path)) {
            Ok(after) => outcome(after, files),
            Err(_) => None,
        },
    }
}

/// The reader after an option with its value, and the file that it names if it names
/// one; nothing, if it is refused.
pub open spec fn applied(
    parser: ParserView,
    pair: (Seq<char>, Seq<char>),
    files: Files,
) -> Option<ParserView> {
    match with_option(parser, pair.0, Some(pair.1)) {
        Ok(next) => match next.wanted {
            WantedView::Nothing => Some(next),
            WantedView::Keypair(path) => match (files.keypair)(path) {
                Some(keypair) => Some(with_keypair(next, keypair)),
                None => None,
            },
            WantedView::KeyFile(path) => match with_key_file(
                next,
                path,
                (files.contents)(path),
            ) {
                Ok(after) => Some(after),
                Err(_) => None,
            },
        },
        Err(_) => None,
    }
}

/// The reader after options with their values, one after the other.
spec fn all_applied(
    parser: ParserView,
    pairs: Seq<(Seq<char>, Seq<char>)>,
    files: Files,
) -> Option<ParserView>
    decreases pairs.len(),
{
    if pairs.len() == 0 {
        Some(parser)
    } else {
        match all_applied(parser, pairs.drop_last(), files) {
            Some(before) => applied(before, pairs.last(), files),
            None => None,
        }
    }
}

/// Options with their values, as arguments.
pub open spec fn spelled(pairs: Seq<(Seq<char>, Seq<char>)>) -> Seq<Seq<char>> {
    Seq::new(
        2 * pairs.len(),
        |i: int|
            if i % 2 == 0 {
                pairs[i / 2].0
            } else {
                pairs[i / 2].1
            },
    )
}

/// The reader with other arguments left.
spec fn with_rest(parser: ParserView, rest: Seq<Seq<char>>) -> ParserView {
    ParserView { rest, ..parser }
}

/// What is left to read does not matter to an option.
proof fn lemma_rest_does_not_matter(
    parser: ParserView,
    rest: Seq<Seq<char>>,
    pair: (Seq<char>, Seq<char>),
    files: Files,
)
    ensures
        match applied(parser, pair, files) {
            Some(after) => applied(with_rest(parser, rest), pair, files) == Some(
                with_rest(after, rest),
            ),
            None => applied(with_rest(parser, rest), pair, files) is None,
        },
{
    let other = with_rest(parser, rest);
    match with_option(parser, pair.0, Some(pair.1)) {
        Ok(next) => {
            assert(with_option(other, pair.0, Some(pair.1)) == Ok::<ParserView, Seq<char>>(
                with_rest(next, rest),
            ));
        },
        Err(e) => {
            assert(with_option(other, pair.0, Some(pair.1)) == Err::<ParserView, Seq<char>>(e));
        },
    }
}

/// An option leaves nothing wanted and the arguments that are left.
proof fn lemma_applied_keeps(parser: ParserView, pair: (Seq<char>, Seq<char>), files: Files)
    requires
        parser.wanted is Nothing,
    ensures
        applied(parser, pair, files) matches Some(after) ==> after.wanted is Nothing && after.rest
            == parser.rest,
{
}

/// Reading the arguments begins with their first option.
proof fn lemma_outcome_step(parser: ParserView, files: Files)
    requires
        parser.wanted is Nothing,
        parser.rest.len() >= 2,
    ensures
        outcome(parser, files) == match applied(
            parser,
            (parser.rest[0], parser.rest[1]),
            files,
        ) {
            Some(after) => outcome(with_rest(after, parser.rest.skip(2)), files),
            None => None,
        },
{
    let pair = (parser.rest[0], parser.rest[1]);
    let rest = parser.rest.skip(2);
    match with_option(parser, pair.0, Some(pair.1)) {
        Ok(next) => {
            let onward = with_rest(next, rest);
            assert(advanced(parser) == advanced(onward));
            match next.wanted {
                WantedView::Nothing => {},
                WantedView::Keypair(path) => {
                    assert(advanced(onward) == (onward, StepView::Keypair(path)));
                },
                WantedView::KeyFile(path) => {
                    assert(advanced(onward) == (onward, StepView::KeyFile(path)));
                },
            }
        },
        Err(_) => {},
    }
}

/// Options one after the other are the first one and then the others.
proof fn lemma_first_applied(
    parser: ParserView,
    pairs: Seq<(Seq<char>, Seq<char>)>,
    files: Files,
)
    requires
        pairs.len() > 0,
    ensures
        all_applied(parser, pairs, files) == match applied(parser, pairs[0], files) {
            Some(after) => all_applied(after, pairs.drop_first(), files),
            None => None,
        },
    decreases pairs.len(),
{
    if pairs.len() == 1 {
        assert(pairs.drop_last() =~= Seq::empty());
        assert(pairs.drop_first() =~= Seq::empty());
        assert(all_applied(parser, pairs.drop_last(), files) == Some(parser));
    } else {
        lemma_first_applied(parser, pairs.drop_last(), files);
        assert(pairs.drop_last().drop_first() =~= pairs.drop_first().drop_last());
        assert(pairs.drop_first().last() == pairs.last());
        assert(pairs.drop_last()[0] == pairs[0]);
    }
}

/// Reading arguments that are options with their values is applying the options, and
/// then seeing whether anything is missing.
proof fn lemma_outcome_of_pairs(
    parser: ParserView,
    pairs: Seq<(Seq<char>, Seq<char>)>,
    files: Files,
)
    requires
        parser.wanted is Nothing,
    ensures
        outcome(with_rest(parser, spelled(pairs)), files) == match all_applied(
            parser,
            pairs,
            files,
        ) {
            Some(after) => match completed(after) {
                Ok(args) => Some(args),
                Err(_) => None,
            },
            None => None,
        },
    decreases pairs.len(),
{
    let reader = with_rest(parser, spelled(pairs));
    if pairs.len() == 0 {
        assert(completed(reader) == completed(parser));
    } else {
        lemma_first_applied(parser, pairs, files);
        lemma_outcome_step(reader, files);
        lemma_rest_does_not_matter(parser, spelled(pairs), pairs[0], files);
        lemma_applied_keeps(parser, pairs[0], files);
        assert(spelled(pairs)[0] == pairs[0].0);
        assert(spelled(pairs)[1] == pairs[0].1);
        let others = pairs.drop_first();
        assert forall|i: int| 0 <= i < 2 * others.len() implies #[trigger] spelled(pairs).skip(2)[i]
            == spelled(others)[i] by {
            assert((i + 2) / 2 == i / 2 + 1);
            assert((i + 2) % 2 == i % 2);
        }
        assert(spelled(pairs).skip(2) =~= spelled(others));
        match applied(parser, pairs[0], files) {
            Some(after) => {
                lemma_outcome_of_pairs(after, others, files);
                assert(with_rest(with_rest(after, spelled(pairs)), spelled(others)) == with_rest(
                    after,
                    spelled(others),
                ));
            },
            None => {},
        }
    }
}

/// The values that are given to the option `name`, in their order.
pub open spec fn values(pairs: Seq<(Seq<char>, Seq<char>)>, name: Seq<char>) -> Seq<Seq<char>>
    decreases pairs.len(),
{
    if pairs.len() == 0 {
        Seq::empty()
    } else if pairs.last().0 == name {
        values(pairs.drop_last(), name).push(pairs.last().1)
    } else {
        values(pairs.drop_last(), name)
    }
}

/// Whether there is an option of this name.
pub open spec fn is_option_name(name: Seq<char>) -> bool {
    ||| name == "--keys-dir"@
    ||| name == "--tpu-file"@
    ||| name == "--stop-file"@
    ||| name == "--rpc-server"@
    ||| name == "--funds-source"@
    ||| name == "--program-id"@
    ||| name == "--contention-accounts-count"@
    ||| name == "--total-transactions"@
    ||| name == "--num-threads"@
}

/// The value of an option that is given once at most.
pub open spec fn only(given: Seq<Seq<char>>) -> Option<Seq<char>> {
    if given.len() == 0 {
        None
    } else {
        Some(given[0])
    }
}

/// The programs that values name.
pub open spec fn programs(given: Seq<Seq<char>>, files: Files) -> Seq<Pubkey> {
    Seq::new(
        given.len(),
        |i: int| pubkey_with(key_read(given[i], (files.contents)(given[i]))->Ok_0),
    )
}

/// Whether values name programs, and none twice.
pub open spec fn programs_ok(given: Seq<Seq<char>>, files: Files) -> bool {
    &&& forall|i: int|
        0 <= i < given.len() ==> key_read(
            #[trigger] given[i],
            (files.contents)(given[i]),
        ) is Ok
    &&& programs(given, files).no_duplicates()
}

/// Whether all the options are there and are given values that they take, and those that
/// may be given once are given once.
pub open spec fn values_ok(pairs: Seq<(Seq<char>, Seq<char>)>, files: Files) -> bool {
    let sources = values(pairs, "--funds-source"@);
    let counts = values(pairs, "--contention-accounts-count"@);
    let totals = values(pairs, "--total-transactions"@);
    let threads = values(pairs, "--num-threads"@);
    &&& forall|i: int| 0 <= i < pairs.len() ==> is_option_name((#[trigger] pairs[i]).0)
    &&& values(pairs, "--keys-dir"@).len() <= 1
    &&& values(pairs, "--tpu-file"@).len() <= 1
    &&& values(pairs, "--stop-file"@).len() <= 1
    &&& sources.len() <= 1
    &&& sources.len() == 1 ==> (files.keypair)(sources[0]) is Some
    &&& counts.len() <= 1
    &&& counts.len() == 1 ==> number_u32(counts[0]) is Ok
    &&& totals.len() <= 1
    &&& totals.len() == 1 ==> number_u64(totals[0]) is Ok
    &&& threads.len() <= 1
    &&& threads.len() == 1 ==> number_u32(threads[0]) is Ok
    &&& programs_ok(values(pairs, "--program-id"@), files)
}

/// The reader to which the options have given their values.
pub open spec fn with_values(pairs: Seq<(Seq<char>, Seq<char>)>, files: Files) -> ParserView {
    ParserView {
        rest: Seq::empty(),
        keys_dir: only(values(pairs, "--keys-dir"@)),
        tpu_file: only(values(pairs, "--tpu-file"@)),
        stop_file: only(values(pairs, "--stop-file"@)),
        rpc_servers: values(pairs, "--rpc-server"@),
        funds_source: match only(values(pairs, "--funds-source"@)) {
            Some(path) => (files.keypair)(path),
            None => None,
        },
        program_ids: programs(values(pairs, "--program-id"@), files),
        contention_accounts_count: match only(values(pairs, "--contention-accounts-count"@)) {
            Some(text) => Some(number_u32(text)->Ok_0),
            None => None,
        },
        total_transactions: match only(values(pairs, "--total-transactions"@)) {
            Some(text) => Some(number_u64(text)->Ok_0),
            None => None,
        },
        num_threads: match only(values(pairs, "--num-threads"@)) {
            Some(text) => Some(number_u32(text)->Ok_0),
            None => None,
        },
        wanted: WantedView::Nothing,
    }
}

/// No two options have the same name.
proof fn lemma_names_differ()
    ensures
        "--keys-dir"@ != "--tpu-file"@,
        "--rpc-server"@ != "--program-id"@,
        "--keys-dir"@.len() == 10,
        "--tpu-file"@.len() == 10,
        "--stop-file"@.len() == 11,
        "--rpc-server"@.len() == 12,
        "--funds-source"@.len() == 14,
        "--program-id"@.len() == 12,
        "--contention-accounts-count"@.len() == 27,
        "--total-transactions"@.len() == 20,
        "--num-threads"@.len() == 13,
{
    reveal_strlit("--keys-dir");
    reveal_strlit("--tpu-file");
    reveal_strlit("--stop-file");
    reveal_strlit("--rpc-server");
    reveal_strlit("--funds-source");
    reveal_strlit("--program-id");
    reveal_strlit("--contention-accounts-count");
    reveal_strlit("--total-transactions");
    reveal_strlit("--num-threads");
    assert("--keys-dir"@[2] != "--tpu-file"@[2]);
    assert("--rpc-server"@[2] != "--program-id"@[2]);
}

/// One more program is named: it must be a program, and not named before.
proof fn lemma_program_step(given: Seq<Seq<char>>, value: Seq<char>, files: Files)
    ensures
        programs_ok(given.push(value), files) <==> {
            &&& programs_ok(given, files)
            &&& key_read(value, (files.contents)(value)) is Ok
            &&& !programs(given, files).contains(
                pubkey_with(key_read(value, (files.contents)(value))->Ok_0),
            )
        },
        programs(given.push(value), files) == programs(given, files).push(
            pubkey_with(key_read(value, (files.contents)(value))->Ok_0),
        ),
{
    let longer = given.push(value);
    let ids = programs(given, files);
    let id = pubkey_with(key_read(value, (files.contents)(value))->Ok_0);
    let more = programs(longer, files);
    assert(more =~= ids.push(id));
    assert forall|i: int| 0 <= i < given.len() implies #[trigger] longer[i] == given[i] by {}
    assert(longer[given.len() as int] == value);
    if programs_ok(longer, files) {
        assert forall|i: int, j: int|
            0 <= i < ids.len() && 0 <= j < ids.len() && i != j implies ids[i] != ids[j] by {
            assert(more[i] == ids[i] && more[j] == ids[j]);
        }
        assert forall|i: int| 0 <= i < given.len() implies key_read(
            #[trigger] given[i],
            (files.contents)(given[i]),
        ) is Ok by {
            assert(longer[i] == given[i]);
        }
        if ids.contains(id) {
            let i = choose|i: int| 0 <= i < ids.len() && ids[i] == id;
            assert(more[i] == more[ids.len() as int]);
        }
    }
    if programs_ok(given, files) && key_read(value, (files.contents)(value)) is Ok
        && !ids.contains(id) {
        assert forall|i: int, j: int|
            0 <= i < more.len() && 0 <= j < more.len() && i != j implies more[i] != more[j] by {
            if i < ids.len() {
                assert(ids.contains(ids[i]));
            }
            if j < ids.len() {
                assert(ids.contains(ids[j]));
            }
        }
    }
}

/// Options that take their values still do without the last of them.
proof fn lemma_values_ok_before(pairs: Seq<(Seq<char>, Seq<char>)>, files: Files)
    requires
        pairs.len() > 0,
        values_ok(pairs, files),
    ensures
        values_ok(pairs.drop_last(), files),
{
    let before = pairs.drop_last();
    assert forall|i: int| 0 <= i < before.len() implies is_option_name((#[trigger] before[i]).0) by {
        assert(before[i] == pairs[i]);
    }
    if pairs.last().0 == "--program-id"@ {
        lemma_program_step(values(before, "--program-id"@), pairs.last().1, files);
    }
}

/// One more option gives its value to the reader, or is refused.
proof fn lemma_values_step(pairs: Seq<(Seq<char>, Seq<char>)>, files: Files)
    requires
        pairs.len() > 0,
        values_ok(pairs.drop_last(), files),
    ensures
        applied(with_values(pairs.drop_last(), files), pairs.last(), files) == if values_ok(
            pairs,
            files,
        ) {
            Some(with_values(pairs, files))
        } else {
            None
        },
{
    let before = pairs.drop_last();
    let (name, value) = pairs.last();
    lemma_names_differ();
    lemma_program_step(values(before, "--program-id"@), value, files);
    assert forall|i: int| 0 <= i < pairs.len() - 1 implies is_option_name(
        (#[trigger] pairs[i]).0,
    ) by {
        assert(before[i] == pairs[i]);
    }
    assert(pairs[pairs.len() - 1] == pairs.last());
    if !is_option_name(name) {
        assert(!values_ok(pairs, files));
    } else {
        assert(forall|i: int| 0 <= i < pairs.len() ==> is_option_name((#[trigger] pairs[i]).0));
    }
}

/// Options that are given to a new reader give it their values, or one of them is
/// refused.
proof fn lemma_all_values(pairs: Seq<(Seq<char>, Seq<char>)>, files: Files)
    ensures
        all_applied(unread(Seq::empty()), pairs, files) == if values_ok(pairs, files) {
            Some(with_values(pairs, files))
        } else {
            None
        },
    decreases pairs.len(),
{
    if pairs.len() == 0 {
        assert(programs(values(pairs, "--program-id"@), files) =~= Seq::empty());
        assert(with_values(pairs, files) =~= unread(Seq::empty()));
    } else {
        lemma_all_values(pairs.drop_last(), files);
        if values_ok(pairs, files) {
            lemma_values_ok_before(pairs, files);
        }
        if values_ok(pairs.drop_last(), files) {
            lemma_values_step(pairs, files);
        }
    }
}

/// Arguments that are options with their values are accepted if the options take their
/// values and nothing is missing, and then say what the values of each option say.
pub proof fn options_give_their_values(pairs: Seq<(Seq<char>, Seq<char>)>, files: Files)
    ensures
        outcome(unread(spelled(pairs)), files) == if values_ok(pairs, files) {
            match completed(with_values(pairs, files)) {
                Ok(args) => Some(args),
                Err(_) => None,
            }
        } else {
            None
        },
{
    lemma_all_values(pairs, files);
    lemma_outcome_of_pairs(unread(Seq::empty()), pairs, files);
    assert(with_rest(unread(Seq::empty()), spelled(pairs)) == unread(spelled(pairs)));
}

/// How often a value is given to an option is how often the two occur together.
proof fn lemma_values_counted(
    pairs: Seq<(Seq<char>, Seq<char>)>,
    name: Seq<char>,
    value: Seq<char>,
)
    ensures
        values(pairs, name).to_multiset().count(value) == pairs.to_multiset().count((name, value)),
    decreases pairs.len(),
{
    broadcast use vstd::seq_lib::group_to_multiset_ensures;

    if pairs.len() > 0 {
        let before = pairs.drop_last();
        lemma_values_counted(before, name, value);
        assert(pairs =~= before.push(pairs.last()));
    }
}

/// The same options with the same values give an option as many values; a single one
/// is the same.
proof fn lemma_same_values(
    pairs: Seq<(Seq<char>, Seq<char>)>,
    other: Seq<(Seq<char>, Seq<char>)>,
    name: Seq<char>,
)
    requires
        pairs.to_multiset() == other.to_multiset(),
    ensures
        values(pairs, name).len() == values(other, name).len(),
        values(pairs, name).len() <= 1 ==> values(pairs, name) == values(other, name),
{
    broadcast use vstd::seq_lib::group_to_multiset_ensures;

    let a = values(pairs, name);
    let b = values(other, name);
    assert forall|v: Seq<char>| a.to_multiset().count(v) == b.to_multiset().count(v) by {
        lemma_values_counted(pairs, name, v);
        lemma_values_counted(other, name, v);
    }
    assert(a.to_multiset() =~= b.to_multiset());
    assert(a.len() == a.to_multiset().len());
    assert(b.len() == b.to_multiset().len());
    if a.len() == 1 {
        assert(a.contains(a[0]));
        assert(a.to_multiset().count(a[0]) > 0);
        assert(b.contains(a[0]));
        assert(a =~= b);
    } else if a.len() == 0 {
        assert(a =~= b);
    }
}

/// The same options with the same values are all options, in either order.
proof fn lemma_same_names(
    pairs: Seq<(Seq<char>, Seq<char>)>,
    other: Seq<(Seq<char>, Seq<char>)>,
)
    requires
        pairs.to_multiset() == other.to_multiset(),
        forall|i: int| 0 <= i < pairs.len() ==> is_option_name((#[trigger] pairs[i]).0),
    ensures
        forall|i: int| 0 <= i < other.len() ==> is_option_name((#[trigger] other[i]).0),
{
    broadcast use vstd::seq_lib::group_to_multiset_ensures;

    assert forall|i: int| 0 <= i < other.len() implies is_option_name((#[trigger] other[i]).0) by {
        assert(other.contains(other[i]));
        assert(other.to_multiset().count(other[i]) > 0);
        assert(pairs.contains(other[i]));
    }
}

/// The order of the options does not matter: the same options with the same values are
/// accepted in either order or in neither, and say the same, as long as the servers are
/// named in the same order, and the programs too.
pub proof fn order_of_options_does_not_matter(
    pairs: Seq<(Seq<char>, Seq<char>)>,
    other: Seq<(Seq<char>, Seq<char>)>,
    files: Files,
)
    requires
        pairs.to_multiset() == other.to_multiset(),
        values(pairs, "--rpc-server"@) == values(other, "--rpc-server"@),
        values(pairs, "--program-id"@) == values(other, "--program-id"@),
    ensures
        outcome(unread(spelled(pairs)), files) == outcome(unread(spelled(other)), files),
{
    options_give_their_values(pairs, files);
    options_give_their_values(other, files);
    lemma_same_values(pairs, other, "--keys-dir"@);
    lemma_same_values(pairs, other, "--tpu-file"@);
    lemma_same_values(pairs, other, "--stop-file"@);
    lemma_same_values(pairs, other, "--funds-source"@);
    lemma_same_values(pairs, other, "--contention-accounts-count"@);
    lemma_same_values(pairs, other, "--total-transactions"@);
    lemma_same_values(pairs, other, "--num-threads"@);
    if values_ok(pairs, files) {
        lemma_same_names(pairs, other);
    }
    if values_ok(other, files) {
        lemma_same_names(other, pairs);
    }
    assert(values_ok(pairs, files) == values_ok(other, files));
    if values_ok(pairs, files) {
        assert(with_values(pairs, files) == with_values(other, files));
    }
}

/// The values of an option are those that stand behind its name, in the order in which they
/// stand there.
pub proof fn values_stand_behind_their_names(
    pairs: Seq<(Seq<char>, Seq<char>)>,
    name: Seq<char>,
)
    ensures
        values(pairs, name) == pairs.filter(|pair: (Seq<char>, Seq<char>)| pair.0 == name)
            .map_values(|pair: (Seq<char>, Seq<char>)| pair.1),
    decreases pairs.len(),
{
    reveal(Seq::filter);
    let named = |pair: (Seq<char>, Seq<char>)| pair.0 == name;
    let value = |pair: (Seq<char>, Seq<char>)| pair.1;
    if pairs.len() > 0 {
        values_stand_behind_their_names(pairs.drop_last(), name);
        let before = pairs.drop_last().filter(named);
        if pairs.last().0 == name {
            assert(before.push(pairs.last()).map_values(value) =~= before.map_values(value).push(
                pairs.last().1,
            ));
        }
    } else {
        assert(pairs.filter(named) =~= Seq::empty());
        assert(pairs.filter(named).map_values(value) =~= Seq::empty());
    }
}

} // verus!
