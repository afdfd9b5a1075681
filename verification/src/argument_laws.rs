//! What holds of the arguments of commands, and of the command lines that tools stand for.
use crate::args::{ArgsView, all_values, last_value, no_args, read_arg, read_args};
use crate::args;
use crate::cli;
use crate::json::JsonView;
use crate::json;
use crate::language::ReferenceMode;
use crate::text;
use crate::tool_args;
use crate::tool_args::{number_under, text_under};
use vstd::prelude::*;

verus! {

/// Whether a text begins as options do.
pub open spec fn is_dashed(s: Seq<char>) -> bool {
    s.len() > 0 && s[0] == '-'
}

/// What an argument begins with is told by its characters.
proof fn lemma_dashed(s: Seq<char>)
    ensures
        text::begins_with(s, "-"@) <==> is_dashed(s),
        text::begins_with(s, "--"@) <==> is_dashed(s) && s.len() > 1 && s[1] == '-',
{
    reveal_strlit("-");
    reveal_strlit("--");
    if s.len() > 0 {
        assert(s.subrange(0, 1) =~= seq![s[0]]);
        assert("-"@ =~= seq!['-']);
        assert(seq![s[0]][0] == s[0] && seq!['-'][0] == '-');
    }
    if s.len() > 1 {
        assert(s.subrange(0, 2) =~= seq![s[0], s[1]]);
        assert("--"@ =~= seq!['-', '-']);
        assert(seq![s[0], s[1]][0] == s[0] && seq!['-', '-'][0] == '-');
        assert(seq![s[0], s[1]][1] == s[1] && seq!['-', '-'][1] == '-');
    }
}

/// The first of the occurrences of a character.
proof fn lemma_first_at(s: Seq<char>, c: char, k: int)
    requires
        0 <= k < s.len(),
        s[k] == c,
        forall|i: int| 0 <= i < k ==> s[i] != c,
    ensures
        text::first_char(s, c) == Some(k),
    decreases s.len(),
{
    let t = s.drop_last();
    if k < s.len() - 1 {
        assert(t[k] == s[k]);
        lemma_first_at(t, c, k);
    } else {
        lemma_none_at(t, c);
    }
}

/// A character that does not occur has no first occurrence.
proof fn lemma_none_at(s: Seq<char>, c: char)
    requires
        forall|i: int| 0 <= i < s.len() ==> s[i] != c,
    ensures
        text::first_char(s, c) is None,
    decreases s.len(),
{
    if s.len() > 0 {
        assert forall|i: int| 0 <= i < s.drop_last().len() implies s.drop_last()[i] != c by {
            assert(s.drop_last()[i] == s[i]);
        }
        lemma_none_at(s.drop_last(), c);
    }
}

/// `--name=value` gives an option a value.
pub proof fn law_an_option_is_given_the_value_behind_its_equals_sign(
    args: Seq<Seq<char>>,
    i: int,
    a: ArgsView,
    name: Seq<char>,
    value: Seq<char>,
)
    requires
        0 <= i < args.len(),
        args[i] == seq!['-', '-'] + name + seq!['='] + value,
        !name.contains('='),
    ensures
        read_args(args, i, a) == read_args(
            args,
            i + 1,
            ArgsView { flags: a.flags.push((name, value)), positionals: a.positionals },
        ),
{
    let arg = args[i];
    lemma_dashed(arg);
    let rest = arg.skip(2);
    let k = name.len() as int;
    assert(rest =~= name + seq!['='] + value);
    assert forall|j: int| 0 <= j < k implies rest[j] != '=' by {
        assert(rest[j] == name[j]);
        assert(name.contains(name[j]));
    }
    lemma_first_at(rest, '=', k);
    assert(rest.take(k) =~= name);
    assert(rest.skip(k + 1) =~= value);
}

/// `--name value` gives an option a value, where the value does not look like an option.
pub proof fn law_an_option_is_given_the_argument_behind_it(
    args: Seq<Seq<char>>,
    i: int,
    a: ArgsView,
    name: Seq<char>,
)
    requires
        0 <= i < args.len() - 1,
        args[i] == seq!['-', '-'] + name,
        name.len() > 0,
        !name.contains('='),
        !is_dashed(args[i + 1]),
    ensures
        read_args(args, i, a) == read_args(
            args,
            i + 2,
            ArgsView { flags: a.flags.push((name, args[i + 1])), positionals: a.positionals },
        ),
{
    let arg = args[i];
    lemma_dashed(arg);
    lemma_dashed(args[i + 1]);
    assert(arg.skip(2) =~= name);
    assert forall|j: int| 0 <= j < name.len() implies name[j] != '=' by {
        assert(name.contains(name[j]));
    }
    lemma_none_at(name, '=');
}

/// An option without a value is set to `true`.
pub proof fn law_an_option_alone_is_set(
    args: Seq<Seq<char>>,
    i: int,
    a: ArgsView,
    name: Seq<char>,
)
    requires
        0 <= i < args.len(),
        args[i] == seq!['-', '-'] + name,
        name.len() > 0,
        !name.contains('='),
        i + 1 < args.len() ==> is_dashed(args[i + 1]),
    ensures
        read_args(args, i, a) == read_args(
            args,
            i + 1,
            ArgsView {
                flags: a.flags.push((name, seq!['t', 'r', 'u', 'e'])),
                positionals: a.positionals,
            },
        ),
{
    let arg = args[i];
    lemma_dashed(arg);
    if i + 1 < args.len() {
        lemma_dashed(args[i + 1]);
    }
    assert(arg.skip(2) =~= name);
    assert forall|j: int| 0 <= j < name.len() implies name[j] != '=' by {
        assert(name.contains(name[j]));
    }
    lemma_none_at(name, '=');
    reveal_strlit("true");
    assert("true"@ =~= seq!['t', 'r', 'u', 'e']);
}

/// Anything that does not look like an option stands for itself.
pub proof fn law_other_arguments_stand_for_themselves(args: Seq<Seq<char>>, i: int, a: ArgsView)
    requires
        0 <= i < args.len(),
        !is_dashed(args[i]),
    ensures
        read_args(args, i, a) == read_args(
            args,
            i + 1,
            ArgsView { flags: a.flags, positionals: a.positionals.push(args[i]) },
        ),
{
    lemma_dashed(args[i]);
}

/// Of the short options there is `-h` alone, which asks for help; any other, and an option without
/// a name, cannot be read.
pub proof fn law_short_options(args: Seq<Seq<char>>, i: int, a: ArgsView)
    requires
        0 <= i < args.len(),
        is_dashed(args[i]),
        args[i].len() < 2 || args[i][1] != '-' || args[i].len() == 2,
    ensures
        args[i] == seq!['-', 'h'] ==> read_args(args, i, a) == read_args(
            args,
            i + 1,
            ArgsView { flags: a.flags.push(("help"@, "true"@)), positionals: a.positionals },
        ),
        args[i] != seq!['-', 'h'] ==> read_args(args, i, a) is Err,
{
    let arg = args[i];
    lemma_dashed(arg);
    reveal_strlit("h");
    if arg.len() == 2 && arg[1] == '-' {
        assert(arg =~= seq!['-', '-']);
        assert(arg[1] != seq!['-', 'h'][1]);
    } else if arg == seq!['-', 'h'] {
        assert(arg.skip(1) =~= "h"@);
    } else if arg.skip(1) == "h"@ {
        assert(arg[1] == arg.skip(1)[0]);
        assert(arg =~= seq!['-', 'h']);
    }
}

/// What is read from a position on does not depend on what stands before it.
proof fn lemma_read_behind(first: Seq<Seq<char>>, rest: Seq<Seq<char>>, k: int, a: ArgsView)
    requires
        0 <= k <= rest.len(),
    ensures
        read_args(first + rest, first.len() + k, a) == read_args(rest, k, a),
    decreases rest.len() - k,
{
    let all = first + rest;
    let n = first.len() as int;
    if k < rest.len() {
        assert(all[n + k] == rest[k]);
        if k + 1 < rest.len() {
            assert(all[n + k + 1] == rest[k + 1]);
        }
        assert(read_arg(all, n + k, a) == read_arg(rest, k, a));
        if let Ok((next, m)) = read_arg(rest, k, a) {
            assert(n + k + m == n + (k + m));
            lemma_read_behind(first, rest, k + m, next);
        }
    }
}

/// What is read before a position does not depend on what stands behind it.
proof fn lemma_read_before(first: Seq<Seq<char>>, rest: Seq<Seq<char>>, i: int, a: ArgsView)
    requires
        0 <= i <= first.len(),
        rest.len() > 0 ==> is_dashed(rest[0]),
    ensures
        read_args(first + rest, i, a) == match read_args(first, i, a) {
            Ok(b) => read_args(rest, 0, b),
            Err(e) => Err(e),
        },
    decreases first.len() - i,
{
    let all = first + rest;
    if i == first.len() {
        lemma_read_behind(first, rest, 0, a);
    } else {
        assert(all[i] == first[i]);
        if i + 1 < first.len() {
            assert(all[i + 1] == first[i + 1]);
        } else if rest.len() > 0 {
            assert(all[i + 1] == rest[0]);
            lemma_dashed(rest[0]);
        }
        assert(read_arg(all, i, a) == read_arg(first, i, a));
        if let Ok((next, m)) = read_arg(first, i, a) {
            lemma_read_before(first, rest, i + m, next);
        }
    }
}

/// Arguments may be read in two goes wherever the second begins with an option.
pub proof fn law_arguments_are_read_in_turn(first: Seq<Seq<char>>, rest: Seq<Seq<char>>, a: ArgsView)
    requires
        rest.len() > 0 ==> is_dashed(rest[0]),
    ensures
        read_args(first + rest, 0, a) == match read_args(first, 0, a) {
            Ok(b) => read_args(rest, 0, b),
            Err(e) => Err(e),
        },
{
    lemma_read_before(first, rest, 0, a);
}

/// Of the values that an option is given the last one counts.
pub proof fn law_the_last_value_counts(
    flags: Seq<(Seq<char>, Seq<char>)>,
    name: Seq<char>,
    i: int,
)
    requires
        0 <= i < flags.len(),
        flags[i].0 == name,
        forall|j: int| i < j < flags.len() ==> (#[trigger] flags[j]).0 != name,
    ensures
        last_value(flags, name) == Some(flags[i].1),
    decreases flags.len(),
{
    if i < flags.len() - 1 {
        let short = flags.drop_last();
        assert(flags[flags.len() - 1].0 != name);
        assert forall|j: int| i < j < short.len() implies (#[trigger] short[j]).0 != name by {
            assert(short[j] == flags[j]);
        }
        law_the_last_value_counts(short, name, i);
    }
}

/// An option that is not given has no value.
pub proof fn law_an_option_not_given_has_no_value(
    flags: Seq<(Seq<char>, Seq<char>)>,
    name: Seq<char>,
)
    requires
        forall|j: int| 0 <= j < flags.len() ==> (#[trigger] flags[j]).0 != name,
    ensures
        last_value(flags, name) is None,
        all_values(flags, name).len() == 0,
    decreases flags.len(),
{
    if flags.len() > 0 {
        let short = flags.drop_last();
        assert(flags[flags.len() - 1].0 != name);
        assert forall|j: int| 0 <= j < short.len() implies (#[trigger] short[j]).0 != name by {
            assert(short[j] == flags[j]);
        }
        law_an_option_not_given_has_no_value(short, name);
    }
}

/// The values of an option are those that it is given, in order.
pub proof fn law_values_are_kept_in_order(
    flags: Seq<(Seq<char>, Seq<char>)>,
    more: Seq<(Seq<char>, Seq<char>)>,
    name: Seq<char>,
    value: Seq<char>,
)
    ensures
        all_values(flags + more, name) == all_values(flags, name) + all_values(more, name),
        all_values(seq![(name, value)], name) == seq![value],
    decreases more.len(),
{
    assert(seq![(name, value)].drop_last() =~= Seq::empty());
    assert(all_values(seq![(name, value)].drop_last(), name) =~= Seq::empty());
    assert(all_values(seq![(name, value)], name) =~= seq![value]);
    if more.len() == 0 {
        assert(flags + more =~= flags);
        assert(all_values(flags, name) + all_values(more, name) =~= all_values(flags, name));
    } else {
        law_values_are_kept_in_order(flags, more.drop_last(), name, value);
        assert((flags + more).drop_last() =~= flags + more.drop_last());
        assert((flags + more).last() == more.last());
        assert(all_values(flags, name) + all_values(more, name) =~= all_values(flags + more, name));
    }
}

/// The decimal digits of a number spell it.
proof fn lemma_digits_of_decimal(n: nat)
    ensures
        text::digits_value(text::decimal(n)) == Some(n as int),
        text::decimal(n).len() > 0,
        '0' <= text::decimal(n)[0] <= '9',
    decreases n,
{
    let d = text::decimal(n);
    if n < 10 {
        assert(d.drop_last() =~= Seq::empty());
        assert(text::digits_value(d.drop_last()) == Some(0int));
        assert(d.last() == text::digit_char(n as int));
    } else {
        lemma_digits_of_decimal(n / 10);
        assert(d.drop_last() =~= text::decimal(n / 10));
        assert(d.last() == text::digit_char((n % 10) as int));
        assert(d[0] == text::decimal(n / 10)[0]);
        assert((n / 10) * 10 + n % 10 == n);
    }
}

/// A number written in decimal is read as that number, where it is not above what is allowed.
pub proof fn law_numbers_are_read_as_they_are_written(n: nat, max: int)
    ensures
        n <= max ==> text::number_upto(text::decimal(n), max) == Some(n as int),
        n > max ==> text::number_upto(text::decimal(n), max) is None,
        !is_dashed(text::decimal(n)),
{
    lemma_digits_of_decimal(n);
}

/// Under several keys the first text counts.
pub proof fn law_the_first_text_counts(args: JsonView, keys: Seq<Seq<char>>, i: int, value: Seq<char>)
    requires
        0 <= i < keys.len(),
        json::member(args, keys[i]) == Some(JsonView::Str(value)),
        forall|j: int| 0 <= j < i ==> !(json::member(args, #[trigger] keys[j]) matches Some(v) && v is Str),
    ensures
        text_under(args, keys) == Some(value),
    decreases keys.len(),
{
    let short = keys.drop_last();
    if i < keys.len() - 1 {
        assert(short[i] == keys[i]);
        assert forall|j: int| 0 <= j < i implies !(json::member(args, #[trigger] short[j]) matches Some(
            v,
        ) && v is Str) by {
            assert(short[j] == keys[j]);
        }
        law_the_first_text_counts(args, short, i, value);
    } else {
        assert forall|j: int| 0 <= j < short.len() implies !(json::member(
            args,
            #[trigger] short[j],
        ) matches Some(v) && v is Str) by {
            assert(short[j] == keys[j]);
        }
        law_without_texts_there_is_none(args, short);
    }
}

/// Under keys that hold no text there is none.
pub proof fn law_without_texts_there_is_none(args: JsonView, keys: Seq<Seq<char>>)
    requires
        forall|j: int|
            0 <= j < keys.len() ==> !(json::member(args, #[trigger] keys[j]) matches Some(v)
                && v is Str),
    ensures
        text_under(args, keys) is None,
    decreases keys.len(),
{
    if keys.len() > 0 {
        let short = keys.drop_last();
        assert forall|j: int| 0 <= j < short.len() implies !(json::member(
            args,
            #[trigger] short[j],
        ) matches Some(v) && v is Str) by {
            assert(short[j] == keys[j]);
        }
        law_without_texts_there_is_none(args, short);
        assert(!(json::member(args, keys[keys.len() - 1]) matches Some(v) && v is Str));
    }
}

/// Whether a value stands for a number: it is a whole one, or a text that spells one.
pub open spec fn stands_for(j: JsonView, n: usize) -> bool {
    j == JsonView::Number(text::decimal(n as nat)) || j == JsonView::Str(text::decimal(n as nat))
}

/// Under several keys the first number counts, written as a number or as a text.
pub proof fn law_the_first_number_counts(args: JsonView, keys: Seq<Seq<char>>, i: int, n: usize)
    requires
        0 <= i < keys.len(),
        json::member(args, keys[i]) matches Some(j) && stands_for(j, n),
        forall|j: int| 0 <= j < i ==> json::member(args, #[trigger] keys[j]) is None,
    ensures
        number_under(args, keys) == Some(n),
    decreases keys.len(),
{
    let short = keys.drop_last();
    if i < keys.len() - 1 {
        assert(short[i] == keys[i]);
        assert forall|j: int| 0 <= j < i implies json::member(args, #[trigger] short[j]) is None by {
            assert(short[j] == keys[j]);
        }
        law_the_first_number_counts(args, short, i, n);
    } else {
        assert forall|j: int| 0 <= j < short.len() implies json::member(
            args,
            #[trigger] short[j],
        ) is None by {
            assert(short[j] == keys[j]);
        }
        law_without_values_there_is_no_number(args, short);
        law_numbers_are_read_as_they_are_written(n as nat, u64::MAX as int);
        law_numbers_are_read_as_they_are_written(n as nat, usize::MAX as int);
        assert(n as u64 as usize == n);
    }
}

/// Under keys that hold nothing there is no number.
pub proof fn law_without_values_there_is_no_number(args: JsonView, keys: Seq<Seq<char>>)
    requires
        forall|j: int| 0 <= j < keys.len() ==> json::member(args, #[trigger] keys[j]) is None,
    ensures
        number_under(args, keys) is None,
    decreases keys.len(),
{
    if keys.len() > 0 {
        let short = keys.drop_last();
        assert forall|j: int| 0 <= j < short.len() implies json::member(
            args,
            #[trigger] short[j],
        ) is None by {
            assert(short[j] == keys[j]);
        }
        law_without_values_there_is_no_number(args, short);
        assert(json::member(args, keys[keys.len() - 1]) is None);
    }
}

/// What a command line says behind its command.
pub open spec fn says(argv: Seq<Seq<char>>, a: ArgsView) -> bool {
    argv.len() >= 1 && read_args(argv.skip(1), 0, no_args()) == Result::<ArgsView, Seq<char>>::Ok(a)
}

/// An option that is given where there is a value for it.
pub open spec fn option_with(name: Seq<char>, value: Option<Seq<char>>) -> Seq<
    (Seq<char>, Seq<char>),
> {
    match value {
        Some(v) => seq![(name, v)],
        None => Seq::empty(),
    }
}

/// An option that is set where something holds.
pub open spec fn option_if(name: Seq<char>, set: bool) -> Seq<(Seq<char>, Seq<char>)> {
    option_with(
        name,
        if set {
            Some("true"@)
        } else {
            None
        },
    )
}

/// The digits of a number, where there is one.
pub open spec fn digits_of(n: Option<usize>) -> Option<Seq<char>> {
    match n {
        Some(n) => Some(text::decimal(n as nat)),
        None => None,
    }
}

/// An option for each value.
pub open spec fn option_each(name: Seq<char>, values: Seq<Seq<char>>) -> Seq<
    (Seq<char>, Seq<char>),
> {
    values.map_values(|v: Seq<char>| (name, v))
}

/// With more options.
pub open spec fn with_more(a: ArgsView, more: Seq<(Seq<char>, Seq<char>)>) -> ArgsView {
    ArgsView { flags: a.flags + more, positionals: a.positionals }
}

/// Whether a text is an option of a name.
pub open spec fn is_option(flag: Seq<char>, name: Seq<char>) -> bool {
    flag == seq!['-', '-'] + name && name.len() > 0 && !name.contains('=')
}

/// A command line with an option and its value says so.
proof fn lemma_pair(
    argv: Seq<Seq<char>>,
    a: ArgsView,
    flag: Seq<char>,
    name: Seq<char>,
    value: Seq<char>,
)
    requires
        says(argv, a),
        is_option(flag, name),
        !is_dashed(value),
    ensures
        says(argv.push(flag).push(value), with_more(a, option_with(name, Some(value)))),
{
    let rest = seq![flag, value];
    law_arguments_are_read_in_turn(argv.skip(1), rest, no_args());
    law_an_option_is_given_the_argument_behind_it(rest, 0, a, name);
    assert(argv.push(flag).push(value).skip(1) =~= argv.skip(1) + rest);
    assert(a.flags.push((name, value)) =~= a.flags + seq![(name, value)]);
}

/// A command line with a switch says so.
proof fn lemma_alone(argv: Seq<Seq<char>>, a: ArgsView, flag: Seq<char>, name: Seq<char>)
    requires
        says(argv, a),
        is_option(flag, name),
    ensures
        says(argv.push(flag), with_more(a, option_if(name, true))),
{
    let rest = seq![flag];
    reveal_strlit("true");
    assert("true"@ =~= seq!['t', 'r', 'u', 'e']);
    law_arguments_are_read_in_turn(argv.skip(1), rest, no_args());
    law_an_option_alone_is_set(rest, 0, a, name);
    assert(argv.push(flag).skip(1) =~= argv.skip(1) + rest);
    assert(a.flags.push((name, "true"@)) =~= a.flags + seq![(name, "true"@)]);
}

/// A command line without a further option says nothing more.
proof fn lemma_nothing_more(argv: Seq<Seq<char>>, a: ArgsView, name: Seq<char>)
    requires
        says(argv, a),
    ensures
        says(argv, with_more(a, option_with(name, None))),
{
    assert(a.flags + Seq::<(Seq<char>, Seq<char>)>::empty() =~= a.flags);
}

/// A command line with an option for each value says so.
proof fn lemma_each(
    argv: Seq<Seq<char>>,
    a: ArgsView,
    flag: Seq<char>,
    name: Seq<char>,
    values: Seq<Seq<char>>,
)
    requires
        says(argv, a),
        is_option(flag, name),
        forall|i: int| 0 <= i < values.len() ==> !is_dashed(#[trigger] values[i]),
    ensures
        says(argv + tool_args::repeated(flag, values), with_more(a, option_each(name, values))),
    decreases values.len(),
{
    if values.len() == 0 {
        assert(argv + tool_args::repeated(flag, values) =~= argv);
        assert(a.flags + option_each(name, values) =~= a.flags);
    } else {
        let short = values.drop_last();
        assert forall|i: int| 0 <= i < short.len() implies !is_dashed(#[trigger] short[i]) by {
            assert(short[i] == values[i]);
        }
        lemma_each(argv, a, flag, name, short);
        let before = argv + tool_args::repeated(flag, short);
        assert(!is_dashed(values[values.len() - 1]));
        lemma_pair(before, with_more(a, option_each(name, short)), flag, name, values.last());
        assert(argv + tool_args::repeated(flag, values) =~= before.push(flag).push(values.last()));
        assert(with_more(a, option_each(name, short)).flags + seq![(name, values.last())]
            =~= a.flags + option_each(name, values));
    }
}

/// A command line with the option for a text says so.
proof fn lemma_with_text(
    argv: Seq<Seq<char>>,
    a: ArgsView,
    args: JsonView,
    flag: Seq<char>,
    name: Seq<char>,
    keys: Seq<Seq<char>>,
)
    requires
        says(argv, a),
        is_option(flag, name),
        text_under(args, keys) matches Some(s) ==> !is_dashed(s),
    ensures
        says(
            tool_args::with_text(argv, args, flag, keys),
            with_more(a, option_with(name, text_under(args, keys))),
        ),
{
    match text_under(args, keys) {
        Some(s) => lemma_pair(argv, a, flag, name, s),
        None => lemma_nothing_more(argv, a, name),
    }
}

/// A command line with the option for a number says so.
proof fn lemma_with_number(
    argv: Seq<Seq<char>>,
    a: ArgsView,
    args: JsonView,
    flag: Seq<char>,
    name: Seq<char>,
    keys: Seq<Seq<char>>,
)
    requires
        says(argv, a),
        is_option(flag, name),
    ensures
        says(
            tool_args::with_number(argv, args, flag, keys),
            with_more(a, option_with(name, digits_of(number_under(args, keys)))),
        ),
{
    match number_under(args, keys) {
        Some(n) => {
            law_numbers_are_read_as_they_are_written(n as nat, usize::MAX as int);
            lemma_pair(argv, a, flag, name, text::decimal(n as nat));
        },
        None => lemma_nothing_more(argv, a, name),
    }
}

/// Whether the value under a key says yes: it is true, or a text other than `false` and `0`.
pub open spec fn says_yes(args: JsonView, key: Seq<char>) -> bool {
    match json::member(args, key) {
        Some(JsonView::Bool(b)) => b,
        Some(JsonView::Str(s)) => s != "false"@ && s != "0"@,
        _ => false,
    }
}

/// Whether the value under a key says no: it is false, or the text `false` or `0`.
pub open spec fn says_no(args: JsonView, key: Seq<char>) -> bool {
    match json::member(args, key) {
        Some(JsonView::Bool(b)) => !b,
        Some(JsonView::Str(s)) => s == "false"@ || s == "0"@,
        _ => false,
    }
}

/// A command line with a switch says so where it is asked for.
proof fn lemma_with_switch(
    argv: Seq<Seq<char>>,
    a: ArgsView,
    args: JsonView,
    flag: Seq<char>,
    name: Seq<char>,
    key: Seq<char>,
)
    requires
        says(argv, a),
        is_option(flag, name),
    ensures
        says(
            tool_args::with_switch(argv, args, flag, key),
            with_more(a, option_if(name, says_yes(args, key))),
        ),
{
    if says_yes(args, key) {
        lemma_alone(argv, a, flag, name);
    } else {
        lemma_nothing_more(argv, a, name);
    }
}

/// What an option is set to once more options follow.
proof fn lemma_value_with(
    flags: Seq<(Seq<char>, Seq<char>)>,
    name: Seq<char>,
    value: Option<Seq<char>>,
    x: Seq<char>,
)
    ensures
        last_value(flags + option_with(name, value), x) == if name == x && value is Some {
            value
        } else {
            last_value(flags, x)
        },
        all_values(flags + option_with(name, value), x) == if name == x && value is Some {
            all_values(flags, x).push(value->0)
        } else {
            all_values(flags, x)
        },
{
    match value {
        Some(v) => {
            assert(flags + option_with(name, value) =~= flags.push((name, v)));
            assert(flags.push((name, v)).drop_last() =~= flags);
        },
        None => {
            assert(flags + option_with(name, value) =~= flags);
        },
    }
}

/// What an option is set to once another is given several values.
proof fn lemma_value_each(
    flags: Seq<(Seq<char>, Seq<char>)>,
    name: Seq<char>,
    values: Seq<Seq<char>>,
    x: Seq<char>,
)
    ensures
        name != x ==> last_value(flags + option_each(name, values), x) == last_value(flags, x),
        name != x ==> all_values(flags + option_each(name, values), x) == all_values(flags, x),
        name == x ==> all_values(flags + option_each(name, values), x) == all_values(flags, x)
            + values,
    decreases values.len(),
{
    let all = flags + option_each(name, values);
    if values.len() == 0 {
        assert(all =~= flags);
        assert(all_values(flags, x) + values =~= all_values(flags, x));
    } else {
        let short = values.drop_last();
        lemma_value_each(flags, name, short, x);
        assert(all.drop_last() =~= flags + option_each(name, short));
        assert(all.last() == (name, values.last()));
        assert((all_values(flags, x) + short).push(values.last()) =~= all_values(flags, x)
            + values);
    }
}

/// The options that tools give to commands are options of their names.
proof fn lemma_options()
    ensures
        is_option("--db"@, "db"@),
        is_option("--root"@, "root"@),
        is_option("--no-reindex"@, "no-reindex"@),
        is_option("--limit"@, "limit"@),
        is_option("--context"@, "context"@),
        is_option("--no-snippets"@, "no-snippets"@),
        is_option("--include-search"@, "include-search"@),
        is_option("--direction"@, "direction"@),
        is_option("--depth"@, "depth"@),
        is_option("--sql"@, "sql"@),
        is_option("--language"@, "language"@),
        is_option("--references"@, "references"@),
        is_option("--threads"@, "threads"@),
        is_option("--follow-symlinks"@, "follow-symlinks"@),
        is_option("--reference-context"@, "reference-context"@),
        is_option("--file"@, "file"@),
        is_option("--line"@, "line"@),
{
    reveal_strlit("db");
    reveal_strlit("--db");
    assert("--db"@ =~= seq!['-', '-'] + "db"@);
    reveal_strlit("root");
    reveal_strlit("--root");
    assert("--root"@ =~= seq!['-', '-'] + "root"@);
    reveal_strlit("no-reindex");
    reveal_strlit("--no-reindex");
    assert("--no-reindex"@ =~= seq!['-', '-'] + "no-reindex"@);
    reveal_strlit("limit");
    reveal_strlit("--limit");
    assert("--limit"@ =~= seq!['-', '-'] + "limit"@);
    reveal_strlit("context");
    reveal_strlit("--context");
    assert("--context"@ =~= seq!['-', '-'] + "context"@);
    reveal_strlit("no-snippets");
    reveal_strlit("--no-snippets");
    assert("--no-snippets"@ =~= seq!['-', '-'] + "no-snippets"@);
    reveal_strlit("include-search");
    reveal_strlit("--include-search");
    assert("--include-search"@ =~= seq!['-', '-'] + "include-search"@);
    reveal_strlit("direction");
    reveal_strlit("--direction");
    assert("--direction"@ =~= seq!['-', '-'] + "direction"@);
    reveal_strlit("depth");
    reveal_strlit("--depth");
    assert("--depth"@ =~= seq!['-', '-'] + "depth"@);
    reveal_strlit("sql");
    reveal_strlit("--sql");
    assert("--sql"@ =~= seq!['-', '-'] + "sql"@);
    reveal_strlit("language");
    reveal_strlit("--language");
    assert("--language"@ =~= seq!['-', '-'] + "language"@);
    reveal_strlit("references");
    reveal_strlit("--references");
    assert("--references"@ =~= seq!['-', '-'] + "references"@);
    reveal_strlit("threads");
    reveal_strlit("--threads");
    assert("--threads"@ =~= seq!['-', '-'] + "threads"@);
    reveal_strlit("follow-symlinks");
    reveal_strlit("--follow-symlinks");
    assert("--follow-symlinks"@ =~= seq!['-', '-'] + "follow-symlinks"@);
    reveal_strlit("reference-context");
    reveal_strlit("--reference-context");
    assert("--reference-context"@ =~= seq!['-', '-'] + "reference-context"@);
    reveal_strlit("file");
    reveal_strlit("--file");
    assert("--file"@ =~= seq!['-', '-'] + "file"@);
    reveal_strlit("line");
    reveal_strlit("--line");
    assert("--line"@ =~= seq!['-', '-'] + "line"@);
}

/// Whether the texts of a call do not look like options.
pub open spec fn is_plain_call(args: JsonView) -> bool {
    forall|key: Seq<char>|
        match #[trigger] json::member(args, key) {
            Some(JsonView::Str(s)) => !is_dashed(s),
            Some(JsonView::Array(items)) => forall|i: int|
                0 <= i < items.len() ==> (#[trigger] items[i] matches JsonView::Str(s)
                    ==> !is_dashed(s)),
            _ => true,
        }
}

/// A text of a plain call does not look like an option.
proof fn lemma_plain_text(args: JsonView, keys: Seq<Seq<char>>)
    requires
        is_plain_call(args),
    ensures
        text_under(args, keys) matches Some(s) ==> !is_dashed(s),
    decreases keys.len(),
{
    if keys.len() > 0 {
        lemma_plain_text(args, keys.drop_last());
        let found = json::member(args, keys.last());
    }
}

/// The texts of a list are its values, in order.
proof fn lemma_all_texts(items: Seq<JsonView>)
    ensures
        tool_args::all_texts(items) matches Some(texts) ==> texts.len() == items.len() && forall|
            i: int,
        |
            0 <= i < items.len() ==> #[trigger] items[i] == JsonView::Str(texts[i]),
        (forall|i: int| 0 <= i < items.len() ==> #[trigger] items[i] is Str)
            ==> tool_args::all_texts(items) is Some,
    decreases items.len(),
{
    if items.len() > 0 {
        let short = items.drop_last();
        lemma_all_texts(short);
        assert(forall|i: int| 0 <= i < short.len() ==> short[i] == #[trigger] items[i]);
        if forall|i: int| 0 <= i < items.len() ==> #[trigger] items[i] is Str {
            assert forall|i: int| 0 <= i < short.len() implies #[trigger] short[i] is Str by {
                assert(items[i] is Str);
            }
            assert(items[items.len() - 1] is Str);
        }
        if let Some(texts) = tool_args::all_texts(items) {
            assert forall|i: int| 0 <= i < items.len() implies #[trigger] items[i] == JsonView::Str(
                texts[i],
            ) by {
                if i < short.len() {
                    assert(short[i] == items[i]);
                }
            }
        }
    }
}

/// The roots of a plain call do not look like options.
proof fn lemma_plain_roots(args: JsonView, required: bool)
    requires
        is_plain_call(args),
    ensures
        tool_args::roots_under(args, required) matches Ok(roots) ==> forall|i: int|
            0 <= i < roots.len() ==> !is_dashed(#[trigger] roots[i]),
{
    lemma_plain_text(args, seq!["root"@, "path"@]);
    let listed = match json::member(args, "roots"@) {
        Some(j) => Some(j),
        None => json::member(args, "paths"@),
    };
    if let Some(JsonView::Array(items)) = listed {
        lemma_all_texts(items);
        if let Some(texts) = tool_args::all_texts(items) {
            assert forall|i: int| 0 <= i < texts.len() implies !is_dashed(#[trigger] texts[i]) by {
                assert(items[i] == JsonView::Str(texts[i]));
            }
        }
    }
}

/// The roots of a call are the single one and then those listed, all of them and in order. Where
/// roots are needed and none is named, that is an error.
pub proof fn law_roots_are_those_named(
    args: JsonView,
    items: Seq<JsonView>,
    texts: Seq<Seq<char>>,
    required: bool,
)
    requires
        json::member(args, "roots"@) == Some(JsonView::Array(items)) || json::member(
            args,
            "roots"@,
        ) is None && json::member(args, "paths"@) == Some(JsonView::Array(items)),
        items.len() == texts.len(),
        forall|i: int| 0 <= i < items.len() ==> #[trigger] items[i] == JsonView::Str(texts[i]),
    ensures
        text_under(args, seq!["root"@, "path"@]) matches Some(s) ==> tool_args::roots_under(
            args,
            required,
        ) == Result::<Seq<Seq<char>>, Seq<char>>::Ok(seq![s] + texts),
        text_under(args, seq!["root"@, "path"@]) is None ==> (if required && texts.len() == 0 {
            tool_args::roots_under(args, required) is Err
        } else {
            tool_args::roots_under(args, required) == Result::<Seq<Seq<char>>, Seq<char>>::Ok(texts)
        }),
{
    lemma_all_texts(items);
    assert(tool_args::all_texts(items)->0 =~= texts) by {
        assert forall|i: int| 0 <= i < texts.len() implies tool_args::all_texts(items)->0[i]
            == texts[i] by {
            assert(items[i] == JsonView::Str(texts[i]));
        }
    }
    assert(Seq::<Seq<char>>::empty() + texts =~= texts);
}

/// What the options that queries share say.
pub open spec fn query_said(a: ArgsView, args: JsonView, roots: Seq<Seq<char>>) -> ArgsView {
    let b = with_more(a, option_with("db"@, text_under(args, seq!["db"@, "database"@])));
    let c = with_more(b, option_each("root"@, roots));
    let d = with_more(c, option_if("no-reindex"@, says_yes(args, "no_reindex"@)));
    let e = with_more(
        d,
        option_with("limit"@, digits_of(number_under(args, seq!["limit"@]))),
    );
    let f = with_more(
        e,
        option_with(
            "context"@,
            digits_of(number_under(args, seq!["context_lines"@, "context"@, "radius"@])),
        ),
    );
    with_more(f, option_if("no-snippets"@, says_no(args, "snippets"@)))
}

/// A command line with the options that queries share says so.
proof fn lemma_query_options(argv: Seq<Seq<char>>, a: ArgsView, args: JsonView)
    requires
        says(argv, a),
        is_plain_call(args),
    ensures
        tool_args::with_query_options(argv, args) matches Ok(out) ==> tool_args::roots_under(
            args,
            false,
        ) is Ok && says(out, query_said(a, args, tool_args::roots_under(args, false)->Ok_0)),
{
    lemma_options();
    if let Ok(roots) = tool_args::roots_under(args, false) {
        let dbs = seq!["db"@, "database"@];
        let lines = seq!["context_lines"@, "context"@, "radius"@];
        lemma_plain_text(args, dbs);
        lemma_plain_roots(args, false);
        let v1 = tool_args::with_text(argv, args, "--db"@, dbs);
        lemma_with_text(argv, a, args, "--db"@, "db"@, dbs);
        let b = with_more(a, option_with("db"@, text_under(args, dbs)));
        lemma_each(v1, b, "--root"@, "root"@, roots);
        let v2 = v1 + tool_args::repeated("--root"@, roots);
        let c = with_more(b, option_each("root"@, roots));
        lemma_with_switch(v2, c, args, "--no-reindex"@, "no-reindex"@, "no_reindex"@);
        let v3 = tool_args::with_switch(v2, args, "--no-reindex"@, "no_reindex"@);
        let d = with_more(c, option_if("no-reindex"@, says_yes(args, "no_reindex"@)));
        lemma_with_number(v3, d, args, "--limit"@, "limit"@, seq!["limit"@]);
        let v4 = tool_args::with_number(v3, args, "--limit"@, seq!["limit"@]);
        let e = with_more(
            d,
            option_with("limit"@, digits_of(number_under(args, seq!["limit"@]))),
        );
        lemma_with_number(v4, e, args, "--context"@, "context"@, lines);
        let v5 = tool_args::with_number(v4, args, "--context"@, lines);
        let f = with_more(e, option_with("context"@, digits_of(number_under(args, lines))));
        if says_no(args, "snippets"@) {
            lemma_alone(v5, f, "--no-snippets"@, "no-snippets"@);
        } else {
            lemma_nothing_more(v5, f, "no-snippets"@);
        }
    }
}

/// The names of the options that queries read are told apart.
proof fn lemma_names_apart()
    ensures
        "db"@.len() == 2,
        "sql"@.len() == 3,
        "root"@.len() == 4,
        "file"@.len() == 4,
        "line"@.len() == 4,
        "file"@ != "line"@ && "file"@ != "root"@ && "line"@ != "root"@,
        "limit"@.len() == 5,
        "depth"@.len() == 5,
        "limit"@ != "depth"@,
        "radius"@.len() == 6,
        "context"@.len() == 7,
        "direction"@.len() == 9,
        "no-reindex"@.len() == 10,
        "no-snippets"@.len() == 11,
        "include-search"@.len() == 14,
        "true"@ != "false"@,
        "true"@ != "0"@,
{
    reveal_strlit("db");
    reveal_strlit("sql");
    reveal_strlit("root");
    reveal_strlit("file");
    reveal_strlit("line");
    reveal_strlit("limit");
    reveal_strlit("depth");
    reveal_strlit("radius");
    reveal_strlit("context");
    reveal_strlit("direction");
    reveal_strlit("no-reindex");
    reveal_strlit("no-snippets");
    reveal_strlit("include-search");
    reveal_strlit("true");
    reveal_strlit("false");
    reveal_strlit("0");
    assert("file"@[0] == 'f' && "line"@[0] == 'l' && "root"@[0] == 'r');
    assert("limit"@[0] == 'l' && "depth"@[0] == 'd');
    assert("true"@.len() == 4 && "false"@.len() == 5 && "0"@.len() == 1);
}

/// What an option is set to by the options that queries share.
proof fn lemma_query_values(a: ArgsView, args: JsonView, roots: Seq<Seq<char>>, x: Seq<char>)
    ensures
        x != "root"@ ==> query_said(a, args, roots).value(x) == if x == "no-snippets"@ && says_no(
            args,
            "snippets"@,
        ) {
            Some("true"@)
        } else if x == "context"@ && number_under(
            args,
            seq!["context_lines"@, "context"@, "radius"@],
        ) is Some {
            digits_of(number_under(args, seq!["context_lines"@, "context"@, "radius"@]))
        } else if x == "limit"@ && number_under(args, seq!["limit"@]) is Some {
            digits_of(number_under(args, seq!["limit"@]))
        } else if x == "no-reindex"@ && says_yes(args, "no_reindex"@) {
            Some("true"@)
        } else if x == "db"@ && text_under(args, seq!["db"@, "database"@]) is Some {
            text_under(args, seq!["db"@, "database"@])
        } else {
            a.value(x)
        },
        x == "root"@ ==> all_values(query_said(a, args, roots).flags, x) == all_values(a.flags, x)
            + roots,
{
    lemma_names_apart();
    let v1 = text_under(args, seq!["db"@, "database"@]);
    let v3 = if says_yes(args, "no_reindex"@) {
        Some("true"@)
    } else {
        None
    };
    let v4 = digits_of(number_under(args, seq!["limit"@]));
    let v5 = digits_of(number_under(args, seq!["context_lines"@, "context"@, "radius"@]));
    let v6 = if says_no(args, "snippets"@) {
        Some("true"@)
    } else {
        None
    };
    let b = a.flags + option_with("db"@, v1);
    let c = b + option_each("root"@, roots);
    let d = c + option_with("no-reindex"@, v3);
    let e = d + option_with("limit"@, v4);
    let f = e + option_with("context"@, v5);
    lemma_value_with(a.flags, "db"@, v1, x);
    lemma_value_each(b, "root"@, roots, x);
    lemma_value_with(c, "no-reindex"@, v3, x);
    lemma_value_with(d, "limit"@, v4, x);
    lemma_value_with(e, "context"@, v5, x);
    lemma_value_with(f, "no-snippets"@, v6, x);
}

/// Whether the options of a query say what its call does: the database, the roots, whether and how
/// much is shown, and how much is found.
pub open spec fn passes_query(args: JsonView, a: ArgsView) -> bool {
    &&& a.value("db"@) == text_under(args, seq!["db"@, "database"@])
    &&& tool_args::roots_under(args, false) == Result::<Seq<Seq<char>>, Seq<char>>::Ok(
        all_values(a.flags, "root"@),
    )
    &&& a.is_set("no-reindex"@) <==> says_yes(args, "no_reindex"@)
    &&& a.limit() == match number_under(args, seq!["limit"@]) {
        Some(n) => n as int,
        None => 20,
    }
    &&& a.radius() == match number_under(
        args,
        seq!["context_lines"@, "context"@, "radius"@],
    ) {
        Some(n) => n as int,
        None => 3,
    }
    &&& a.is_set("no-snippets"@) <==> says_no(args, "snippets"@)
}

/// The options of a query say what its call does, whatever is asked beside them.
proof fn lemma_passes_query(a: ArgsView, args: JsonView)
    requires
        tool_args::roots_under(args, false) is Ok,
        a.flags.len() == 0 || a.flags.len() == 1 && a.flags[0].0 == "sql"@,
    ensures
        passes_query(args, query_said(a, args, tool_args::roots_under(args, false)->Ok_0)),
{
    lemma_names_apart();
    let roots = tool_args::roots_under(args, false)->Ok_0;
    let x = query_said(a, args, roots);
    if a.flags.len() == 1 {
        assert(a.flags.drop_last().len() == 0);
        assert(a.flags.last() == a.flags[0]);
    }
    reveal_with_fuel(last_value, 2);
    reveal_with_fuel(all_values, 2);
    assert(a.value("db"@) is None && a.value("no-reindex"@) is None && a.value("limit"@) is None
        && a.value("context"@) is None && a.value("radius"@) is None && a.value("no-snippets"@)
        is None);
    assert(all_values(a.flags, "root"@) =~= Seq::empty());
    assert(all_values(a.flags, "root"@) + roots =~= roots);
    lemma_query_values(a, args, roots, "db"@);
    lemma_query_values(a, args, roots, "root"@);
    lemma_query_values(a, args, roots, "no-reindex"@);
    lemma_query_values(a, args, roots, "limit"@);
    lemma_query_values(a, args, roots, "context"@);
    lemma_query_values(a, args, roots, "radius"@);
    lemma_query_values(a, args, roots, "no-snippets"@);
    if let Some(n) = number_under(args, seq!["limit"@]) {
        law_numbers_are_read_as_they_are_written(n as nat, usize::MAX as int);
    }
    if let Some(n) = number_under(args, seq!["context_lines"@, "context"@, "radius"@]) {
        law_numbers_are_read_as_they_are_written(n as nat, usize::MAX as int);
    }
}

/// A further option of another name changes nothing of what the options of a query say.
proof fn lemma_passes_more(
    a: ArgsView,
    args: JsonView,
    name: Seq<char>,
    value: Option<Seq<char>>,
)
    requires
        passes_query(args, a),
        name == "include-search"@ || name == "direction"@ || name == "depth"@,
    ensures
        passes_query(args, with_more(a, option_with(name, value))),
{
    lemma_names_apart();
    lemma_value_with(a.flags, name, value, "db"@);
    lemma_value_with(a.flags, name, value, "root"@);
    lemma_value_with(a.flags, name, value, "no-reindex"@);
    lemma_value_with(a.flags, name, value, "limit"@);
    lemma_value_with(a.flags, name, value, "context"@);
    lemma_value_with(a.flags, name, value, "radius"@);
    lemma_value_with(a.flags, name, value, "no-snippets"@);
}

/// The names of the tools are told apart by their lengths and some of their letters.
proof fn lemma_tools_apart()
    ensures
        "xref_index"@.len() == 10,
        "xref_reindex"@.len() == 12,
        "xref_stats"@.len() == 10,
        "xref_find"@.len() == 9,
        "xref_search"@.len() == 11,
        "xref_refs"@.len() == 9,
        "xref_callers"@.len() == 12,
        "xref_callees"@.len() == 12,
        "xref_hierarchy"@.len() == 14,
        "xref_context"@.len() == 12,
        "xref_expand"@.len() == 11,
        "xref_sql"@.len() == 8,
        "xref_index"@[5] == 'i' && "xref_stats"@[5] == 's',
        "xref_find"@[5] == 'f' && "xref_refs"@[5] == 'r',
        "xref_search"@[5] == 's' && "xref_expand"@[5] == 'e',
        "xref_reindex"@[5] == 'r' && "xref_callers"@[5] == 'c',
        "xref_callees"@[5] == 'c' && "xref_context"@[5] == 'c',
        "xref_callers"@[6] == 'a' && "xref_callees"@[6] == 'a' && "xref_context"@[6] == 'o',
        "xref_callers"@[10] == 'r' && "xref_callees"@[10] == 'e',
{
    reveal_strlit("xref_index");
    reveal_strlit("xref_reindex");
    reveal_strlit("xref_stats");
    reveal_strlit("xref_find");
    reveal_strlit("xref_search");
    reveal_strlit("xref_refs");
    reveal_strlit("xref_callers");
    reveal_strlit("xref_callees");
    reveal_strlit("xref_hierarchy");
    reveal_strlit("xref_context");
    reveal_strlit("xref_expand");
    reveal_strlit("xref_sql");
}

/// The command of a tool that asks for a symbol.
pub open spec fn symbol_command(tool: Seq<char>) -> Option<Seq<char>> {
    if tool == "xref_find"@ {
        Some("find"@)
    } else if tool == "xref_search"@ {
        Some("search"@)
    } else if tool == "xref_refs"@ {
        Some("refs"@)
    } else if tool == "xref_callers"@ {
        Some("callers"@)
    } else if tool == "xref_callees"@ {
        Some("callees"@)
    } else if tool == "xref_hierarchy"@ {
        Some("hierarchy"@)
    } else if tool == "xref_expand"@ {
        Some("expand"@)
    } else {
        None
    }
}

/// The keys under which a tool looks for its symbol.
pub open spec fn keys_of_symbol(tool: Seq<char>) -> Seq<Seq<char>> {
    if tool == "xref_search"@ {
        seq!["pattern"@, "query"@, "symbol"@, "name"@]
    } else if tool == "xref_hierarchy"@ {
        seq!["class"@, "symbol"@, "name"@, "query"@]
    } else if tool == "xref_expand"@ {
        seq!["symbol"@, "name"@, "query"@, "seed"@]
    } else {
        seq!["symbol"@, "name"@, "query"@]
    }
}

/// A command line of a command alone says nothing, and one with an argument says that.
proof fn lemma_begun(command: Seq<char>, symbol: Seq<char>)
    requires
        !is_dashed(symbol),
    ensures
        says(seq![command], no_args()),
        says(
            seq![command, symbol],
            ArgsView { flags: Seq::empty(), positionals: seq![symbol] },
        ),
{
    assert(seq![command].skip(1) =~= Seq::<Seq<char>>::empty());
    assert(seq![command, symbol].skip(1) =~= seq![symbol]);
    law_other_arguments_stand_for_themselves(seq![symbol], 0, no_args());
    assert(no_args().positionals.push(symbol) =~= seq![symbol]);
}

/// A tool that asks for a symbol runs its command on the symbol it is told, with all the options of
/// a query, and says of `find` whether to look further and of `expand` which way and how far to go.
/// It can be called wherever it is told a symbol and its roots can be read.
pub proof fn law_tools_ask_for_the_symbol_they_are_told(tool: Seq<char>, args: JsonView) -> (a:
    ArgsView)
    requires
        is_plain_call(args),
        symbol_command(tool) is Some,
    ensures
        tool_args::tool_argv(tool, args) is Ok <==> text_under(args, keys_of_symbol(tool)) is Some
            && tool_args::roots_under(args, false) is Ok,
        tool_args::tool_argv(tool, args) matches Ok(argv) ==> {
            &&& Some(argv[0]) == symbol_command(tool)
            &&& says(argv, a)
            &&& Some(a.positionals) == match text_under(args, keys_of_symbol(tool)) {
                Some(symbol) => Some(seq![symbol]),
                None => None,
            }
            &&& passes_query(args, a)
            &&& tool == "xref_find"@ ==> (a.is_set("include-search"@) <==> says_yes(
                args,
                "include_search"@,
            ))
            &&& tool == "xref_expand"@ ==> a.value("direction"@) == text_under(
                args,
                seq!["direction"@],
            ) && a.value("depth"@) == digits_of(number_under(args, seq!["depth"@]))
        },
{
    lemma_tools_apart();
    lemma_names_apart();
    lemma_options();
    let keys = keys_of_symbol(tool);
    lemma_plain_text(args, keys);
    if text_under(args, keys) is None || tool_args::roots_under(args, false) is Err {
        no_args()
    } else {
        let symbol = text_under(args, keys)->0;
        let command = symbol_command(tool)->0;
        let roots = tool_args::roots_under(args, false)->Ok_0;
        let start = ArgsView { flags: Seq::empty(), positionals: seq![symbol] };
        let begun = seq![command, symbol];
        lemma_begun(command, symbol);
        lemma_query_options(begun, start, args);
        lemma_passes_query(start, args);
        let out = tool_args::with_query_options(begun, args)->Ok_0;
        lemma_first_stays(begun, args);
        let a = query_said(start, args, roots);
        if tool == "xref_find"@ {
            lemma_query_values(start, args, roots, "include-search"@);
            let yes = says_yes(args, "include_search"@);
            let value = if yes {
                Some("true"@)
            } else {
                None
            };
            lemma_with_switch(out, a, args, "--include-search"@, "include-search"@, "include_search"@);
            lemma_passes_more(a, args, "include-search"@, value);
            lemma_value_with(a.flags, "include-search"@, value, "include-search"@);
            with_more(a, option_if("include-search"@, yes))
        } else if tool == "xref_expand"@ {
            let way = text_under(args, seq!["direction"@]);
            let far = digits_of(number_under(args, seq!["depth"@]));
            lemma_plain_text(args, seq!["direction"@]);
            lemma_query_values(start, args, roots, "direction"@);
            lemma_query_values(start, args, roots, "depth"@);
            lemma_with_text(out, a, args, "--direction"@, "direction"@, seq!["direction"@]);
            let next = tool_args::with_text(out, args, "--direction"@, seq!["direction"@]);
            let b = with_more(a, option_with("direction"@, way));
            lemma_passes_more(a, args, "direction"@, way);
            lemma_value_with(a.flags, "direction"@, way, "direction"@);
            lemma_value_with(a.flags, "direction"@, way, "depth"@);
            lemma_with_number(next, b, args, "--depth"@, "depth"@, seq!["depth"@]);
            lemma_passes_more(b, args, "depth"@, far);
            lemma_value_with(b.flags, "depth"@, far, "direction"@);
            lemma_value_with(b.flags, "depth"@, far, "depth"@);
            with_more(b, option_with("depth"@, far))
        } else {
            assert(command != "find"@) by {
                reveal_strlit("find");
                reveal_strlit("search");
                reveal_strlit("refs");
                reveal_strlit("callers");
                reveal_strlit("callees");
                reveal_strlit("hierarchy");
                assert("find"@.len() == 4 && "search"@.len() == 6 && "refs"@.len() == 4);
                assert("callers"@.len() == 7 && "callees"@.len() == 7 && "hierarchy"@.len() == 9);
                assert("find"@[0] == 'f' && "refs"@[0] == 'r');
            }
            a
        }
    }
}

/// Options follow the command.
proof fn lemma_first_stays(argv: Seq<Seq<char>>, args: JsonView)
    requires
        argv.len() > 0,
    ensures
        tool_args::with_query_options(argv, args) matches Ok(out) ==> out.len() > 0 && out[0]
            == argv[0],
{
}

/// The tool for statistics runs its command with all the options of a query.
pub proof fn law_stats_tool_passes_its_options(args: JsonView) -> (a: ArgsView)
    requires
        is_plain_call(args),
    ensures
        tool_args::tool_argv("xref_stats"@, args) is Ok <==> tool_args::roots_under(
            args,
            false,
        ) is Ok,
        tool_args::tool_argv("xref_stats"@, args) matches Ok(argv) ==> argv[0] == "stats"@ && says(
            argv,
            a,
        ) && a.positionals.len() == 0 && passes_query(args, a),
{
    lemma_tools_apart();
    if tool_args::roots_under(args, false) is Ok {
        let symbol = Seq::<char>::empty();
        lemma_begun("stats"@, symbol);
        lemma_query_options(seq!["stats"@], no_args(), args);
        lemma_passes_query(no_args(), args);
        lemma_first_stays(seq!["stats"@], args);
        query_said(no_args(), args, tool_args::roots_under(args, false)->Ok_0)
    } else {
        no_args()
    }
}

/// The tool for SQL runs its command on the query that it is told, with all the options of a query.
pub proof fn law_sql_tool_runs_the_query_it_is_told(args: JsonView) -> (a: ArgsView)
    requires
        is_plain_call(args),
    ensures
        tool_args::tool_argv("xref_sql"@, args) is Ok <==> text_under(
            args,
            seq!["sql"@, "query"@],
        ) is Some && tool_args::roots_under(args, false) is Ok,
        tool_args::tool_argv("xref_sql"@, args) matches Ok(argv) ==> {
            &&& argv[0] == "sql"@
            &&& says(argv, a)
            &&& a.positionals.len() == 0
            &&& a.value("sql"@) == text_under(args, seq!["sql"@, "query"@])
            &&& passes_query(args, a)
        },
{
    lemma_tools_apart();
    lemma_names_apart();
    lemma_options();
    let keys = seq!["sql"@, "query"@];
    lemma_plain_text(args, keys);
    if text_under(args, keys) is Some && tool_args::roots_under(args, false) is Ok {
        let sql = text_under(args, keys)->0;
        let roots = tool_args::roots_under(args, false)->Ok_0;
        let begun = seq!["sql"@, "--sql"@, sql];
        let start = with_more(no_args(), option_with("sql"@, Some(sql)));
        lemma_begun("sql"@, sql);
        lemma_pair(seq!["sql"@], no_args(), "--sql"@, "sql"@, sql);
        assert(seq!["sql"@].push("--sql"@).push(sql) =~= begun);
        assert(start.flags =~= seq![("sql"@, sql)]);
        lemma_query_options(begun, start, args);
        lemma_passes_query(start, args);
        lemma_first_stays(begun, args);
        lemma_query_values(start, args, roots, "sql"@);
        lemma_value_with(no_args().flags, "sql"@, Some(sql), "sql"@);
        query_said(start, args, roots)
    } else {
        no_args()
    }
}

/// The tool for a place that is told a file runs its command on that file and the line it is told,
/// with the number of lines around it.
pub proof fn law_context_tool_shows_the_place_it_is_told(args: JsonView) -> (a: ArgsView)
    requires
        is_plain_call(args),
        text_under(args, seq!["file"@, "path"@]) is Some,
    ensures
        tool_args::tool_argv("xref_context"@, args) is Ok <==> number_under(
            args,
            seq!["line"@],
        ) is Some,
        tool_args::tool_argv("xref_context"@, args) matches Ok(argv) ==> {
            &&& argv[0] == "context"@
            &&& says(argv, a)
            &&& cli::context_target(a) == Result::<Option<(Seq<char>, usize)>, Seq<char>>::Ok(
                Some(
                    (
                        text_under(args, seq!["file"@, "path"@])->0,
                        number_under(args, seq!["line"@])->0,
                    ),
                ),
            )
            &&& a.radius() == match number_under(
                args,
                seq!["context_lines"@, "context"@, "radius"@],
            ) {
                Some(n) => n as int,
                None => 3,
            }
        },
{
    lemma_tools_apart();
    lemma_names_apart();
    lemma_options();
    let keys = seq!["file"@, "path"@];
    let lines = seq!["context_lines"@, "context"@, "radius"@];
    lemma_plain_text(args, keys);
    if let Some(line) = number_under(args, seq!["line"@]) {
        let file = text_under(args, keys)->0;
        let digits = text::decimal(line as nat);
        let begun = seq!["context"@, "--file"@, file, "--line"@, digits];
        let b = with_more(no_args(), option_with("file"@, Some(file)));
        let c = with_more(b, option_with("line"@, Some(digits)));
        let around = digits_of(number_under(args, lines));
        let a = with_more(c, option_with("context"@, around));
        law_numbers_are_read_as_they_are_written(line as nat, usize::MAX as int);
        lemma_begun("context"@, file);
        lemma_pair(seq!["context"@], no_args(), "--file"@, "file"@, file);
        assert(seq!["context"@].push("--file"@).push(file) =~= seq!["context"@, "--file"@, file]);
        lemma_pair(seq!["context"@, "--file"@, file], b, "--line"@, "line"@, digits);
        assert(seq!["context"@, "--file"@, file].push("--line"@).push(digits) =~= begun);
        lemma_with_number(begun, c, args, "--context"@, "context"@, lines);
        lemma_value_with(no_args().flags, "file"@, Some(file), "file"@);
        lemma_value_with(b.flags, "line"@, Some(digits), "file"@);
        lemma_value_with(c.flags, "context"@, around, "file"@);
        lemma_value_with(b.flags, "line"@, Some(digits), "line"@);
        lemma_value_with(c.flags, "context"@, around, "line"@);
        lemma_value_with(no_args().flags, "file"@, Some(file), "context"@);
        lemma_value_with(b.flags, "line"@, Some(digits), "context"@);
        lemma_value_with(c.flags, "context"@, around, "context"@);
        lemma_value_with(no_args().flags, "file"@, Some(file), "radius"@);
        lemma_value_with(b.flags, "line"@, Some(digits), "radius"@);
        lemma_value_with(c.flags, "context"@, around, "radius"@);
        if let Some(n) = number_under(args, lines) {
            law_numbers_are_read_as_they_are_written(n as nat, usize::MAX as int);
        }
        a
    } else {
        no_args()
    }
}

/// The tool for a place that is told no file runs its command on the symbol that it is told, with
/// the options of a query that bear on it.
pub proof fn law_context_tool_shows_the_symbol_it_is_told(args: JsonView) -> (a: ArgsView)
    requires
        is_plain_call(args),
        text_under(args, seq!["file"@, "path"@]) is None,
    ensures
        tool_args::tool_argv("xref_context"@, args) is Ok <==> text_under(
            args,
            seq!["symbol"@, "name"@, "query"@],
        ) is Some && tool_args::roots_under(args, false) is Ok,
        tool_args::tool_argv("xref_context"@, args) matches Ok(argv) ==> {
            &&& argv[0] == "context"@
            &&& says(argv, a)
            &&& a.positionals.len() == 1
            &&& Some(a.positionals[0]) == text_under(args, seq!["symbol"@, "name"@, "query"@])
            &&& cli::context_target(a) == Result::<Option<(Seq<char>, usize)>, Seq<char>>::Ok(None)
            &&& a.value("db"@) == text_under(args, seq!["db"@, "database"@])
            &&& tool_args::roots_under(args, false) == Result::<Seq<Seq<char>>, Seq<char>>::Ok(
                all_values(a.flags, "root"@),
            )
            &&& a.is_set("no-reindex"@) <==> says_yes(args, "no_reindex"@)
            &&& a.limit() == match number_under(args, seq!["limit"@]) {
                Some(n) => n as int,
                None => 20,
            }
            &&& a.radius() == match number_under(
                args,
                seq!["context_lines"@, "context"@, "radius"@],
            ) {
                Some(n) => n as int,
                None => 3,
            }
        },
{
    lemma_tools_apart();
    lemma_names_apart();
    lemma_options();
    let keys = seq!["symbol"@, "name"@, "query"@];
    let dbs = seq!["db"@, "database"@];
    let lines = seq!["context_lines"@, "context"@, "radius"@];
    lemma_plain_text(args, keys);
    lemma_plain_text(args, dbs);
    if text_under(args, keys) is None || tool_args::roots_under(args, false) is Err {
        no_args()
    } else {
        let symbol = text_under(args, keys)->0;
        let roots = tool_args::roots_under(args, false)->Ok_0;
        lemma_plain_roots(args, false);
        lemma_begun("context"@, symbol);
        let start = ArgsView { flags: Seq::empty(), positionals: seq![symbol] };
        let begun = seq!["context"@, symbol];
        let v1 = text_under(args, dbs);
        let v3 = if says_yes(args, "no_reindex"@) {
            Some("true"@)
        } else {
            None
        };
        let v4 = digits_of(number_under(args, seq!["limit"@]));
        let v5 = digits_of(number_under(args, lines));
        let b = with_more(start, option_with("db"@, v1));
        let c = with_more(b, option_each("root"@, roots));
        let d = with_more(c, option_with("no-reindex"@, v3));
        let e = with_more(d, option_with("limit"@, v4));
        let a = with_more(e, option_with("context"@, v5));
        let w1 = tool_args::with_text(begun, args, "--db"@, dbs);
        lemma_with_text(begun, start, args, "--db"@, "db"@, dbs);
        let w2 = w1 + tool_args::repeated("--root"@, roots);
        lemma_each(w1, b, "--root"@, "root"@, roots);
        let w3 = tool_args::with_switch(w2, args, "--no-reindex"@, "no_reindex"@);
        lemma_with_switch(w2, c, args, "--no-reindex"@, "no-reindex"@, "no_reindex"@);
        let w4 = tool_args::with_number(w3, args, "--limit"@, seq!["limit"@]);
        lemma_with_number(w3, d, args, "--limit"@, "limit"@, seq!["limit"@]);
        lemma_with_number(w4, e, args, "--context"@, "context"@, lines);
        assert(w2[0] == "context"@);
        lemma_context_values(start, v1, roots, v3, v4, v5, "file"@);
        lemma_context_values(start, v1, roots, v3, v4, v5, "db"@);
        lemma_context_values(start, v1, roots, v3, v4, v5, "root"@);
        lemma_context_values(start, v1, roots, v3, v4, v5, "no-reindex"@);
        lemma_context_values(start, v1, roots, v3, v4, v5, "limit"@);
        lemma_context_values(start, v1, roots, v3, v4, v5, "context"@);
        lemma_context_values(start, v1, roots, v3, v4, v5, "radius"@);
        assert(all_values(start.flags, "root"@) + roots =~= roots);
        if let Some(n) = number_under(args, seq!["limit"@]) {
            law_numbers_are_read_as_they_are_written(n as nat, usize::MAX as int);
        }
        if let Some(n) = number_under(args, lines) {
            law_numbers_are_read_as_they_are_written(n as nat, usize::MAX as int);
        }
        a
    }
}

/// What an option is set to by those of the tool for a place.
proof fn lemma_context_values(
    a: ArgsView,
    v1: Option<Seq<char>>,
    roots: Seq<Seq<char>>,
    v3: Option<Seq<char>>,
    v4: Option<Seq<char>>,
    v5: Option<Seq<char>>,
    x: Seq<char>,
)
    ensures
        ({
            let b = a.flags + option_with("db"@, v1);
            let c = b + option_each("root"@, roots);
            let d = c + option_with("no-reindex"@, v3);
            let e = d + option_with("limit"@, v4);
            let all = e + option_with("context"@, v5);
            &&& x != "root"@ ==> last_value(all, x) == if x == "context"@ && v5 is Some {
                v5
            } else if x == "limit"@ && v4 is Some {
                v4
            } else if x == "no-reindex"@ && v3 is Some {
                v3
            } else if x == "db"@ && v1 is Some {
                v1
            } else {
                last_value(a.flags, x)
            }
            &&& x == "root"@ ==> all_values(all, x) == all_values(a.flags, x) + roots
        }),
{
    lemma_names_apart();
    let b = a.flags + option_with("db"@, v1);
    let c = b + option_each("root"@, roots);
    let d = c + option_with("no-reindex"@, v3);
    let e = d + option_with("limit"@, v4);
    lemma_value_with(a.flags, "db"@, v1, x);
    lemma_value_each(b, "root"@, roots, x);
    lemma_value_with(c, "no-reindex"@, v3, x);
    lemma_value_with(d, "limit"@, v4, x);
    lemma_value_with(e, "context"@, v5, x);
}

/// The names of the options that indexing reads are told apart.
proof fn lemma_index_names_apart()
    ensures
        "db"@.len() == 2,
        "root"@.len() == 4,
        "path"@.len() == 4,
        "lang"@.len() == 4,
        "path"@ != "root"@ && "lang"@ != "root"@,
        "threads"@.len() == 7,
        "language"@.len() == 8,
        "references"@.len() == 10,
        "reference-mode"@.len() == 14,
        "all-references"@.len() == 14,
        "follow-symlinks"@.len() == 15,
        "reference-context"@.len() == 17,
        "true"@ != "false"@,
        "true"@ != "0"@,
{
    lemma_names_apart();
    reveal_strlit("db");
    reveal_strlit("root");
    reveal_strlit("path");
    reveal_strlit("lang");
    reveal_strlit("threads");
    reveal_strlit("language");
    reveal_strlit("references");
    reveal_strlit("reference-mode");
    reveal_strlit("all-references");
    reveal_strlit("follow-symlinks");
    reveal_strlit("reference-context");
    assert("path"@[0] == 'p' && "lang"@[0] == 'l' && "root"@[0] == 'r');
}

/// What an option is set to by those of the tools for indexing.
proof fn lemma_index_values(
    roots: Seq<Seq<char>>,
    v2: Option<Seq<char>>,
    v3: Option<Seq<char>>,
    v4: Option<Seq<char>>,
    v5: Option<Seq<char>>,
    v6: Option<Seq<char>>,
    v7: Option<Seq<char>>,
    x: Seq<char>,
)
    ensures
        ({
            let b = Seq::<(Seq<char>, Seq<char>)>::empty() + option_each("root"@, roots);
            let c = b + option_with("db"@, v2);
            let d = c + option_with("language"@, v3);
            let e = d + option_with("references"@, v4);
            let f = e + option_with("threads"@, v5);
            let g = f + option_with("follow-symlinks"@, v6);
            let all = g + option_with("reference-context"@, v7);
            &&& x != "root"@ ==> last_value(all, x) == if x == "reference-context"@ {
                v7
            } else if x == "follow-symlinks"@ {
                v6
            } else if x == "threads"@ {
                v5
            } else if x == "references"@ {
                v4
            } else if x == "language"@ {
                v3
            } else if x == "db"@ {
                v2
            } else {
                None
            }
            &&& x == "root"@ ==> all_values(all, x) == roots
            &&& x == "path"@ ==> all_values(all, x).len() == 0
        }),
{
    lemma_index_names_apart();
    let none = Seq::<(Seq<char>, Seq<char>)>::empty();
    let b = none + option_each("root"@, roots);
    let c = b + option_with("db"@, v2);
    let d = c + option_with("language"@, v3);
    let e = d + option_with("references"@, v4);
    let f = e + option_with("threads"@, v5);
    let g = f + option_with("follow-symlinks"@, v6);
    lemma_value_each(none, "root"@, roots, x);
    lemma_value_with(b, "db"@, v2, x);
    lemma_value_with(c, "language"@, v3, x);
    lemma_value_with(d, "references"@, v4, x);
    lemma_value_with(e, "threads"@, v5, x);
    lemma_value_with(f, "follow-symlinks"@, v6, x);
    lemma_value_with(g, "reference-context"@, v7, x);
    assert(all_values(none, x) + roots =~= roots);
}

/// The tools for indexing run their commands on the roots that they are told, with the database, the
/// language, the workers and the switches that they are told. Told nothing about references they ask
/// for none.
pub proof fn law_index_tools_index_what_they_are_told(args: JsonView, incremental: bool) -> (a:
    ArgsView)
    requires
        is_plain_call(args),
    ensures
        ({
            let tool = if incremental {
                "xref_reindex"@
            } else {
                "xref_index"@
            };
            &&& tool_args::tool_argv(tool, args) is Ok <==> tool_args::roots_under(args, true) is Ok
            &&& tool_args::tool_argv(tool, args) matches Ok(argv) ==> {
                &&& argv[0] == if incremental {
                    "reindex"@
                } else {
                    "index"@
                }
                &&& says(argv, a)
                &&& indexes(args, a)
            }
        }),
{
    lemma_tools_apart();
    if tool_args::roots_under(args, true) is Ok {
        let roots = tool_args::roots_under(args, true)->Ok_0;
        lemma_index_says(args, incremental);
        lemma_indexes(args);
        index_said(args, roots)
    } else {
        no_args()
    }
}

/// Whether a switch is set.
spec fn set_if(yes: bool) -> Option<Seq<char>> {
    if yes {
        Some("true"@)
    } else {
        None
    }
}

/// The references that a call of a tool for indexing asks for.
spec fn references_asked(args: JsonView) -> Seq<char> {
    match text_under(args, seq!["references"@, "reference_mode"@]) {
        Some(s) => s,
        None => "none"@,
    }
}

/// What the options of a tool for indexing say.
spec fn index_said(args: JsonView, roots: Seq<Seq<char>>) -> ArgsView {
    let b = with_more(no_args(), option_each("root"@, roots));
    let c = with_more(b, option_with("db"@, text_under(args, seq!["db"@, "database"@])));
    let d = with_more(c, option_with("language"@, text_under(args, seq!["language"@, "lang"@])));
    let e = with_more(d, option_with("references"@, Some(references_asked(args))));
    let f = with_more(
        e,
        option_with("threads"@, digits_of(number_under(args, seq!["threads"@]))),
    );
    let g = with_more(
        f,
        option_with("follow-symlinks"@, set_if(says_yes(args, "follow_symlinks"@))),
    );
    with_more(
        g,
        option_with("reference-context"@, set_if(says_yes(args, "reference_context"@))),
    )
}

/// The command line of a tool for indexing says what its call does.
proof fn lemma_index_says(args: JsonView, incremental: bool)
    requires
        is_plain_call(args),
        tool_args::roots_under(args, true) is Ok,
    ensures
        tool_args::index_argv(args, incremental) matches Ok(argv) && argv[0] == (if incremental {
            "reindex"@
        } else {
            "index"@
        }) && says(argv, index_said(args, tool_args::roots_under(args, true)->Ok_0)),
{
    lemma_options();
    let roots = tool_args::roots_under(args, true)->Ok_0;
    let dbs = seq!["db"@, "database"@];
    let tongues = seq!["language"@, "lang"@];
    let modes = seq!["references"@, "reference_mode"@];
    lemma_plain_text(args, dbs);
    lemma_plain_text(args, tongues);
    lemma_plain_text(args, modes);
    lemma_plain_roots(args, true);
    let command = if incremental {
        "reindex"@
    } else {
        "index"@
    };
    let begun = seq![command];
    lemma_begun(command, Seq::empty());
    reveal_strlit("none");
    let mode = references_asked(args);
    let b = with_more(no_args(), option_each("root"@, roots));
    let c = with_more(b, option_with("db"@, text_under(args, dbs)));
    let d = with_more(c, option_with("language"@, text_under(args, tongues)));
    let e = with_more(d, option_with("references"@, Some(mode)));
    let f = with_more(
        e,
        option_with("threads"@, digits_of(number_under(args, seq!["threads"@]))),
    );
    let g = with_more(
        f,
        option_with("follow-symlinks"@, set_if(says_yes(args, "follow_symlinks"@))),
    );
    let w1 = begun + tool_args::repeated("--root"@, roots);
    lemma_each(begun, no_args(), "--root"@, "root"@, roots);
    let w2 = tool_args::with_text(w1, args, "--db"@, dbs);
    lemma_with_text(w1, b, args, "--db"@, "db"@, dbs);
    let w3 = tool_args::with_text(w2, args, "--language"@, tongues);
    lemma_with_text(w2, c, args, "--language"@, "language"@, tongues);
    let w4 = w3.push("--references"@).push(mode);
    lemma_pair(w3, d, "--references"@, "references"@, mode);
    let w5 = tool_args::with_number(w4, args, "--threads"@, seq!["threads"@]);
    lemma_with_number(w4, e, args, "--threads"@, "threads"@, seq!["threads"@]);
    let w6 = tool_args::with_switch(w5, args, "--follow-symlinks"@, "follow_symlinks"@);
    lemma_with_switch(w5, f, args, "--follow-symlinks"@, "follow-symlinks"@, "follow_symlinks"@);
    lemma_with_switch(
        w6,
        g,
        args,
        "--reference-context"@,
        "reference-context"@,
        "reference_context"@,
    );
    assert(w1[0] == command);
}

/// What the options of a tool for indexing say is what its call does.
proof fn lemma_indexes(args: JsonView)
    requires
        tool_args::roots_under(args, true) is Ok,
    ensures
        indexes(args, index_said(args, tool_args::roots_under(args, true)->Ok_0)),
{
    lemma_index_names_apart();
    let roots = tool_args::roots_under(args, true)->Ok_0;
    let v2 = text_under(args, seq!["db"@, "database"@]);
    let v3 = text_under(args, seq!["language"@, "lang"@]);
    let v4 = Some(references_asked(args));
    let v5 = digits_of(number_under(args, seq!["threads"@]));
    let v6 = set_if(says_yes(args, "follow_symlinks"@));
    let v7 = set_if(says_yes(args, "reference_context"@));
    let a = index_said(args, roots);
    lemma_index_values(roots, v2, v3, v4, v5, v6, v7, "root"@);
    lemma_index_values(roots, v2, v3, v4, v5, v6, v7, "path"@);
    lemma_index_values(roots, v2, v3, v4, v5, v6, v7, "db"@);
    lemma_index_values(roots, v2, v3, v4, v5, v6, v7, "language"@);
    lemma_index_values(roots, v2, v3, v4, v5, v6, v7, "lang"@);
    lemma_index_values(roots, v2, v3, v4, v5, v6, v7, "references"@);
    lemma_index_values(roots, v2, v3, v4, v5, v6, v7, "all-references"@);
    lemma_index_values(roots, v2, v3, v4, v5, v6, v7, "threads"@);
    lemma_index_values(roots, v2, v3, v4, v5, v6, v7, "follow-symlinks"@);
    lemma_index_values(roots, v2, v3, v4, v5, v6, v7, "reference-context"@);
    assert(args::named_roots(a) =~= roots);
    if let Some(n) = number_under(args, seq!["threads"@]) {
        law_numbers_are_read_as_they_are_written(n as nat, usize::MAX as int);
    }
}

/// Whether the options of an indexing run say what its call does.
pub open spec fn indexes(args: JsonView, a: ArgsView) -> bool {
    &&& tool_args::roots_under(args, true) == Result::<Seq<Seq<char>>, Seq<char>>::Ok(
        args::named_roots(a),
    )
    &&& a.value("db"@) == text_under(args, seq!["db"@, "database"@])
    &&& a.value_or("language"@, "lang"@) == text_under(args, seq!["language"@, "lang"@])
    &&& a.reference_mode() == match text_under(args, seq!["references"@, "reference_mode"@]) {
        Some(s) => args::reference_mode_of(s),
        None => Ok(ReferenceMode::Off),
    }
    &&& a.number(a.value("threads"@)) == match number_under(args, seq!["threads"@]) {
        Some(n) => Some(n as int),
        None => None,
    }
    &&& a.is_set("follow-symlinks"@) <==> says_yes(args, "follow_symlinks"@)
    &&& a.is_set("reference-context"@) <==> says_yes(args, "reference_context"@)
}

} // verus!
