//! What holds of every parse and every reading of flag values, stated over
//! the models that the contracts of `ArgsParser::parse` and
//! `ParsedArgs::flags` use.
use crate::args::{
    classify, coerce, dashed, find_flag, flag_before, flag_name_of, flag_value,
    last_value_upto, parse_items, resolve_flag, value_after, ErrorView, FlagKind, FlagView, ValueView,
    ItemView,
};
use vstd::prelude::*;

verus! {

/// True when no two of `flags` share a name.
pub open spec fn unique_names(flags: Seq<FlagView>) -> bool {
    forall|a: int, b: int|
        0 <= a < flags.len() && 0 <= b < flags.len() && a != b ==> flags[a].name != flags[b].name
}

/// A successful parse has one item per token, and each of its prefixes is
/// the parse of the same prefix of the tokens.
pub proof fn lemma_parse_prefix(
    tokens: Seq<Seq<char>>,
    commands: Seq<Seq<char>>,
    flags: Seq<FlagView>,
    n: int,
)
    requires
        0 <= n <= tokens.len(),
        parse_items(tokens, commands, flags) is Ok,
    ensures
        parse_items(tokens, commands, flags)->Ok_0.len() == tokens.len(),
        parse_items(tokens.take(n), commands, flags) == Ok::<Seq<ItemView>, ErrorView>(
            parse_items(tokens, commands, flags)->Ok_0.take(n),
        ),
    decreases tokens.len(),
{
    let items = parse_items(tokens, commands, flags)->Ok_0;
    if tokens.len() == 0 {
        assert(tokens.take(n) =~= tokens);
        assert(items.take(n) =~= items);
    } else {
        let rest = parse_items(tokens.drop_last(), commands, flags)->Ok_0;
        if n < tokens.len() {
            lemma_parse_prefix(tokens.drop_last(), commands, flags, n);
            assert(tokens.drop_last().take(n) =~= tokens.take(n));
            assert(rest.take(n) =~= items.take(n));
        } else {
            lemma_parse_prefix(tokens.drop_last(), commands, flags, 0);
            assert(tokens.take(n) =~= tokens);
            assert(items.take(n) =~= items);
        }
    }
}

/// In a successful parse, item `n` is the classification of token `n` after
/// the items before it.
pub proof fn lemma_parse_item(
    tokens: Seq<Seq<char>>,
    commands: Seq<Seq<char>>,
    flags: Seq<FlagView>,
    n: int,
)
    requires
        0 <= n < tokens.len(),
        parse_items(tokens, commands, flags) is Ok,
    ensures
        ({
            let items = parse_items(tokens, commands, flags)->Ok_0;
            classify(flag_before(items.take(n)), tokens[n], commands, flags) == Ok::<
                ItemView,
                ErrorView,
            >(items[n])
        }),
{
    let items = parse_items(tokens, commands, flags)->Ok_0;
    lemma_parse_prefix(tokens, commands, flags, n);
    lemma_parse_prefix(tokens, commands, flags, n + 1);
    assert(tokens.take(n + 1).drop_last() =~= tokens.take(n));
    assert(tokens.take(n + 1).last() == tokens[n]);
    assert(items.take(n + 1).drop_last() =~= items.take(n));
    assert(items.take(n + 1).last() == items[n]);
    let c = classify(flag_before(items.take(n)), tokens[n], commands, flags);
    if let Ok(item) = c {
        assert(items.take(n).push(item).last() == item);
    }
}

/// A failure on a prefix of the tokens is the failure of the whole parse.
pub proof fn lemma_parse_fails_from_prefix(
    tokens: Seq<Seq<char>>,
    commands: Seq<Seq<char>>,
    flags: Seq<FlagView>,
    n: int,
)
    requires
        0 <= n <= tokens.len(),
        parse_items(tokens.take(n), commands, flags) is Err,
    ensures
        parse_items(tokens, commands, flags) == parse_items(tokens.take(n), commands, flags),
    decreases tokens.len() - n,
{
    if n < tokens.len() {
        assert(tokens.take(n + 1).drop_last() =~= tokens.take(n));
        lemma_parse_fails_from_prefix(tokens, commands, flags, n + 1);
    } else {
        assert(tokens.take(n) =~= tokens);
    }
}

/// With unique names, the flag found under a name is the one declared flag
/// of that name.
proof fn lemma_find_unique(flags: Seq<FlagView>, name: Seq<char>)
    requires
        unique_names(flags),
    ensures
        find_flag(flags, name) matches Some(f) ==> flags.contains(f) && f.name == name,
        find_flag(flags, name) is None ==> forall|a: int|
            0 <= a < flags.len() ==> flags[a].name != name,
        forall|f: FlagView| flags.contains(f) && f.name == name ==> find_flag(flags, name) == Some(f),
    decreases flags.len(),
{
    if flags.len() > 0 {
        let rest = flags.drop_first();
        assert(unique_names(rest)) by {
            assert forall|a: int, b: int|
                0 <= a < rest.len() && 0 <= b < rest.len() && a != b implies rest[a].name
                != rest[b].name by {
                assert(rest[a] == flags[a + 1] && rest[b] == flags[b + 1]);
            }
        }
        lemma_find_unique(rest, name);
        assert forall|a: int| 0 <= a < rest.len() implies #[trigger] rest[a] == flags[a + 1] by {}
        if flags[0].name == name {
            assert forall|f: FlagView| flags.contains(f) && f.name == name implies f == flags[0] by {
                let a = choose|a: int| 0 <= a < flags.len() && flags[a] == f;
                if a != 0 {
                    assert(flags[a].name != flags[0].name);
                }
            }
            assert(flags.contains(flags[0]));
        } else {
            if let Some(f) = find_flag(rest, name) {
                let a = choose|a: int| 0 <= a < rest.len() && rest[a] == f;
                assert(flags[a + 1] == f);
            }
            assert forall|f: FlagView| flags.contains(f) && f.name == name implies rest.contains(
                f,
            ) by {
                let a = choose|a: int| 0 <= a < flags.len() && flags[a] == f;
                assert(a != 0);
                assert(rest[a - 1] == f);
            }
            assert forall|a: int| 0 <= a < flags.len() && find_flag(rest, name) is None implies flags[a].name
                != name by {
                if a > 0 {
                    assert(rest[a - 1] == flags[a]);
                }
            }
        }
    }
}

/// Where no two declared flags share a name, the order in which the flags
/// were declared changes nothing: the same tokens parse to the same items,
/// or fail the same way. Since `ParsedArgs::flags` keys its values by the
/// declared flags and reads them off the items alone, it then reports the
/// same value for each flag under either order.
pub proof fn lemma_declaration_order(
    tokens: Seq<Seq<char>>,
    commands: Seq<Seq<char>>,
    d1: Seq<FlagView>,
    d2: Seq<FlagView>,
)
    requires
        unique_names(d1),
        unique_names(d2),
        forall|f: FlagView| d1.contains(f) <==> d2.contains(f),
    ensures
        parse_items(tokens, commands, d1) == parse_items(tokens, commands, d2),
    decreases tokens.len(),
{
    if tokens.len() > 0 {
        lemma_declaration_order(tokens.drop_last(), commands, d1, d2);
        let t = tokens.last();
        if let Some(name) = flag_name_of(t) {
            lemma_find_unique(d1, name);
            lemma_find_unique(d2, name);
            if let Some(f) = find_flag(d1, name) {
                assert(d2.contains(f));
            }
            if let Some(f) = find_flag(d2, name) {
                assert(d1.contains(f));
            }
        }
        assert(resolve_flag(t, d1) == resolve_flag(t, d2));
    }
}

/// A declared flag that does not occur among the items has no value.
pub proof fn lemma_absent_flag_has_no_value(items: Seq<ItemView>, f: FlagView)
    requires
        forall|i: int| 0 <= i < items.len() ==> items[i] != ItemView::Flag(f),
    ensures
        flag_value(items, f) is None,
{
    lemma_no_occurrence_upto(items, items.len() as int, f);
}

proof fn lemma_no_occurrence_upto(items: Seq<ItemView>, n: int, f: FlagView)
    requires
        n <= items.len(),
        forall|i: int| 0 <= i < n ==> items[i] != ItemView::Flag(f),
    ensures
        last_value_upto(items, n, f) is None,
    decreases n,
{
    if n > 0 {
        lemma_no_occurrence_upto(items, n - 1, f);
    }
}

/// A flag that expects a number or a string takes the token right after it
/// as its value, whatever that token looks like (a declared command name, a
/// dash-prefixed token); where the token does not read as such a value, the
/// whole parse fails with `MalformedArgument` holding that token.
pub proof fn lemma_value_flag_claims_next(
    tokens: Seq<Seq<char>>,
    commands: Seq<Seq<char>>,
    flags: Seq<FlagView>,
    i: int,
)
    requires
        0 <= i,
        i + 1 < tokens.len(),
        parse_items(tokens.take(i + 1), commands, flags) is Ok,
        parse_items(tokens.take(i + 1), commands, flags)->Ok_0.last() is Flag,
        parse_items(tokens.take(i + 1), commands, flags)->Ok_0.last()->Flag_0.kind
            != FlagKind::Bool,
    ensures
        ({
            let items = parse_items(tokens.take(i + 1), commands, flags)->Ok_0;
            let kind = items.last()->Flag_0.kind;
            match coerce(kind, tokens[i + 1]) {
                Some(v) => parse_items(tokens.take(i + 2), commands, flags) == Ok::<
                    Seq<ItemView>,
                    ErrorView,
                >(items.push(ItemView::Value(v))),
                None => parse_items(tokens, commands, flags) == Err::<Seq<ItemView>, ErrorView>(
                    ErrorView::MalformedArgument(tokens[i + 1]),
                ),
            }
        }),
{
    let items = parse_items(tokens.take(i + 1), commands, flags)->Ok_0;
    assert(tokens.take(i + 2).drop_last() =~= tokens.take(i + 1));
    assert(tokens.take(i + 2).last() == tokens[i + 1]);
    assert(items.len() > 0);
    if coerce(items.last()->Flag_0.kind, tokens[i + 1]) is None {
        lemma_parse_fails_from_prefix(tokens, commands, flags, i + 2);
    }
}

/// A boolean flag takes the value item right after it; with no value item
/// right after it (another flag, a command, or the end of the tokens) its
/// presence gives `true`. Its last occurrence decides.
pub proof fn lemma_bool_flag_value(items: Seq<ItemView>, f: FlagView, j: int)
    requires
        0 <= j < items.len(),
        f.kind == FlagKind::Bool,
        items[j] == ItemView::Flag(f),
        forall|k: int| j < k < items.len() ==> items[k] != ItemView::Flag(f),
    ensures
        j + 1 < items.len() && items[j + 1] is Value ==> flag_value(items, f) == Some(
            items[j + 1]->Value_0,
        ),
        !(j + 1 < items.len() && items[j + 1] is Value) ==> flag_value(items, f) == Some(
            ValueView::Bool(true),
        ),
{
    lemma_last_occurrence(items, f, j, items.len() as int);
}

proof fn lemma_last_occurrence(items: Seq<ItemView>, f: FlagView, j: int, n: int)
    requires
        0 <= j < n <= items.len(),
        items[j] == ItemView::Flag(f),
        forall|k: int| j < k < items.len() ==> items[k] != ItemView::Flag(f),
    ensures
        last_value_upto(items, n, f) == value_after(items, j),
    decreases n,
{
    if n - 1 > j {
        lemma_last_occurrence(items, f, j, n - 1);
    }
}

/// When a flag occurs more than once, the value of its last occurrence is
/// the one reported.
pub proof fn lemma_last_write_wins(items: Seq<ItemView>, f: FlagView, i: int, j: int)
    requires
        0 <= i < j < items.len(),
        items[i] == ItemView::Flag(f),
        items[j] == ItemView::Flag(f),
        forall|k: int| j < k < items.len() ==> items[k] != ItemView::Flag(f),
    ensures
        flag_value(items, f) == value_after(items, j),
{
    lemma_last_occurrence(items, f, j, items.len() as int);
}

/// Where a token is read as a flag (it follows no flag that expects a
/// number or a string, and is no command name), `-x` and `--x` name the
/// same flag for a one-character name `x`: the first declared flag named
/// `x`, or `BadFlag` where there is none.
pub proof fn lemma_single_char_either_dash(
    after: Option<FlagKind>,
    x: char,
    commands: Seq<Seq<char>>,
    flags: Seq<FlagView>,
)
    requires
        x != '-',
        after is None || after == Some(FlagKind::Bool),
        !commands.contains(seq!['-', x]),
        !commands.contains(seq!['-', '-', x]),
    ensures
        classify(after, seq!['-', x], commands, flags) == classify(
            after,
            seq!['-', '-', x],
            commands,
            flags,
        ),
        classify(after, seq!['-', x], commands, flags) == match find_flag(flags, seq![x]) {
            Some(f) => Ok::<ItemView, ErrorView>(ItemView::Flag(f)),
            None => Err::<ItemView, ErrorView>(ErrorView::BadFlag),
        },
{
    assert(seq!['-', x].subrange(1, 2) =~= seq![x]);
    assert(seq!['-', '-', x].subrange(2, 3) =~= seq![x]);
    assert(dashed(seq!['-', x]));
    assert(dashed(seq!['-', '-', x]));
}

/// Where a token is read as a flag, a name longer than one character written
/// after a single dash is malformed, whatever flags are declared.
pub proof fn lemma_long_name_single_dash(
    after: Option<FlagKind>,
    name: Seq<char>,
    commands: Seq<Seq<char>>,
    flags: Seq<FlagView>,
)
    requires
        name.len() > 1,
        name[0] != '-',
        after is None || after == Some(FlagKind::Bool),
        !commands.contains(seq!['-'] + name),
    ensures
        classify(after, seq!['-'] + name, commands, flags) == Err::<ItemView, ErrorView>(
            ErrorView::MalformedArgument(seq!['-'] + name),
        ),
{
    let t = seq!['-'] + name;
    assert(t[0] == '-' && t[1] == name[0]);
    assert(dashed(t));
}

proof fn lemma_find_none(flags: Seq<FlagView>, name: Seq<char>)
    requires
        forall|a: int| 0 <= a < flags.len() ==> flags[a].name != name,
    ensures
        find_flag(flags, name) is None,
    decreases flags.len(),
{
    if flags.len() > 0 {
        let rest = flags.drop_first();
        assert forall|a: int| 0 <= a < rest.len() implies rest[a].name != name by {
            assert(rest[a] == flags[a + 1]);
        }
        lemma_find_none(rest, name);
    }
}

/// A token with a flag's shape whose name no declared flag has makes the
/// whole parse fail with `BadFlag`, where it is read as a flag: it follows
/// no flag that expects a number or a string, and is no command name.
pub proof fn lemma_unknown_flag_rejected(
    tokens: Seq<Seq<char>>,
    commands: Seq<Seq<char>>,
    flags: Seq<FlagView>,
    i: int,
)
    requires
        0 <= i < tokens.len(),
        parse_items(tokens.take(i), commands, flags) is Ok,
        ({
            let after = flag_before(parse_items(tokens.take(i), commands, flags)->Ok_0);
            after is None || after == Some(FlagKind::Bool)
        }),
        !commands.contains(tokens[i]),
        flag_name_of(tokens[i]) is Some,
        forall|a: int|
            0 <= a < flags.len() ==> flags[a].name != flag_name_of(tokens[i])->0,
    ensures
        parse_items(tokens, commands, flags) == Err::<Seq<ItemView>, ErrorView>(
            ErrorView::BadFlag,
        ),
{
    lemma_find_none(flags, flag_name_of(tokens[i])->0);
    assert(tokens.take(i + 1).drop_last() =~= tokens.take(i));
    assert(tokens.take(i + 1).last() == tokens[i]);
    assert(dashed(tokens[i]));
    lemma_parse_fails_from_prefix(tokens, commands, flags, i + 1);
}

} // verus!
