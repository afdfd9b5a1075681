//! Command-line arguments.
use crate::language::{Language, ReferenceMode};
use crate::text::{
    joined, parse_number, same, split_once, starts_with, strip_prefix, to_ascii_lower,
};
use crate::text;
use vstd::prelude::*;

verus! {

/// The database that commands use where no other is named.
pub const DEFAULT_DB_PATH: &'static str = ".git/code-indexer/xrefs.sqlite3";

/// An option with its value.
#[derive(Debug)]
pub struct Flag {
    pub name: String,
    pub value: String,
}

impl View for Flag {
    type V = (Seq<char>, Seq<char>);

    open spec fn view(&self) -> (Seq<char>, Seq<char>) {
        (self.name@, self.value@)
    }
}

/// The arguments of a command: options with their values, and what stands without an option.
#[derive(Debug)]
pub struct ParsedArgs {
    pub flags: Vec<Flag>,
    pub positionals: Vec<String>,
}

/// The arguments of a command.
pub struct ArgsView {
    pub flags: Seq<(Seq<char>, Seq<char>)>,
    pub positionals: Seq<Seq<char>>,
}

impl View for ParsedArgs {
    type V = ArgsView;

    open spec fn view(&self) -> ArgsView {
        ArgsView { flags: text::views(self.flags@), positionals: text::views(self.positionals@) }
    }
}

/// One more option.
pub open spec fn with_flag(a: ArgsView, name: Seq<char>, value: Seq<char>) -> ArgsView {
    ArgsView { flags: a.flags.push((name, value)), ..a }
}

/// What reading the argument at a position adds, and how many arguments that takes; or the
/// message for an argument that cannot be read.
///
/// `--name=value` and `--name value` set an option; without a value, or before another option,
/// `--name` sets it to `true`. The only short option is `-h`. Anything else stands for itself.
pub open spec fn read_arg(args: Seq<Seq<char>>, i: int, a: ArgsView) -> Result<
    (ArgsView, int),
    Seq<char>,
> {
    let arg = args[i];
    if text::begins_with(arg, "--"@) {
        let rest = arg.skip(2);
        if rest.len() == 0 {
            Err("empty option '--'"@)
        } else {
            match text::cut(rest, '=') {
                Some((name, value)) => Ok((with_flag(a, name, value), 1)),
                None => if i + 1 < args.len() && !text::begins_with(args[i + 1], "-"@) {
                    Ok((with_flag(a, rest, args[i + 1]), 2))
                } else {
                    Ok((with_flag(a, rest, "true"@), 1))
                },
            }
        }
    } else if text::begins_with(arg, "-"@) {
        if arg.skip(1) == "h"@ {
            Ok((with_flag(a, "help"@, "true"@), 1))
        } else {
            Err("unsupported short option '-"@ + arg.skip(1) + "'"@)
        }
    } else {
        Ok((ArgsView { positionals: a.positionals.push(arg), ..a }, 1))
    }
}

/// The arguments from a position on, read one after the other; the first message where one
/// cannot be read.
pub open spec fn read_args(args: Seq<Seq<char>>, i: int, a: ArgsView) -> Result<
    ArgsView,
    Seq<char>,
>
    decreases args.len() - i,
{
    if i >= args.len() {
        Ok(a)
    } else {
        match read_arg(args, i, a) {
            Ok((next, n)) => if n > 0 {
                read_args(args, i + n, next)
            } else {
                Ok(next)
            },
            Err(e) => Err(e),
        }
    }
}

/// No arguments.
pub open spec fn no_args() -> ArgsView {
    ArgsView { flags: Seq::empty(), positionals: Seq::empty() }
}

/// The value that an option was given last.
pub open spec fn last_value(flags: Seq<(Seq<char>, Seq<char>)>, name: Seq<char>) -> Option<
    Seq<char>,
>
    decreases flags.len(),
{
    if flags.len() == 0 {
        None
    } else if flags.last().0 == name {
        Some(flags.last().1)
    } else {
        last_value(flags.drop_last(), name)
    }
}

/// The values that an option was given, in order.
pub open spec fn all_values(flags: Seq<(Seq<char>, Seq<char>)>, name: Seq<char>) -> Seq<Seq<char>>
    decreases flags.len(),
{
    if flags.len() == 0 {
        Seq::empty()
    } else if flags.last().0 == name {
        all_values(flags.drop_last(), name).push(flags.last().1)
    } else {
        all_values(flags.drop_last(), name)
    }
}

impl ArgsView {
    /// The value of an option.
    pub open spec fn value(self, name: Seq<char>) -> Option<Seq<char>> {
        last_value(self.flags, name)
    }

    /// The value of an option, or else that of another.
    pub open spec fn value_or(self, name: Seq<char>, other: Seq<char>) -> Option<Seq<char>> {
        match self.value(name) {
            Some(v) => Some(v),
            None => self.value(other),
        }
    }

    /// Whether an option is set to anything but `false` or `0`.
    pub open spec fn is_set(self, name: Seq<char>) -> bool {
        self.value(name) matches Some(v) && v != "false"@ && v != "0"@
    }

    /// The number that an option is set to, where it is set to one.
    pub open spec fn number(self, value: Option<Seq<char>>) -> Option<int> {
        match value {
            Some(v) => text::number_upto(v, usize::MAX as int),
            None => None,
        }
    }

    /// The database.
    pub open spec fn db(self) -> Seq<char> {
        match self.value("db"@) {
            Some(v) => v,
            None => DEFAULT_DB_PATH@,
        }
    }

    /// The symbol that a command is about.
    pub open spec fn symbol(self) -> Option<Seq<char>> {
        if self.positionals.len() > 0 {
            Some(self.positionals[0])
        } else {
            self.value_or("name"@, "symbol"@)
        }
    }

    /// How many results to give.
    pub open spec fn limit(self) -> int {
        match self.number(self.value("limit"@)) {
            Some(n) => n,
            None => 20,
        }
    }

    /// How many lines of source to show around a place.
    pub open spec fn radius(self) -> int {
        match self.number(self.value_or("context"@, "radius"@)) {
            Some(n) => n,
            None => 3,
        }
    }

    /// How many references to collect.
    pub open spec fn reference_mode(self) -> Result<ReferenceMode, Seq<char>> {
        if self.is_set("all-references"@) {
            Ok(ReferenceMode::All)
        } else {
            match self.value_or("references"@, "reference-mode"@) {
                Some(v) => reference_mode_of(v),
                None => Ok(ReferenceMode::Calls),
            }
        }
    }
}

/// The reference mode of a name.
pub open spec fn reference_mode_of(v: Seq<char>) -> Result<ReferenceMode, Seq<char>> {
    if v == "none"@ || v == "off"@ || v == "false"@ || v == "0"@ {
        Ok(ReferenceMode::Off)
    } else if v == "calls"@ || v == "call"@ || v == "call-sites"@ {
        Ok(ReferenceMode::Calls)
    } else if v == "all"@ || v == "identifiers"@ || v == "full"@ {
        Ok(ReferenceMode::All)
    } else {
        Err("unsupported reference mode '"@ + v + "'; use none, calls, or all"@)
    }
}

/// Whether a result shows a value or a message.
pub open spec fn shows<T: View>(r: Result<T, String>, wanted: Result<T::V, Seq<char>>) -> bool {
    match (r, wanted) {
        (Ok(a), Ok(b)) => a@ == b,
        (Err(a), Err(b)) => a@ == b,
        _ => false,
    }
}

/// Reads the arguments of a command.
pub fn parse_args(args: &Vec<String>) -> (r: Result<ParsedArgs, String>)
    ensures
        shows(r, read_args(text::views(args@), 0, no_args())),
{
    let ghost all = text::views(args@);
    let mut flags: Vec<Flag> = Vec::new();
    let mut positionals: Vec<String> = Vec::new();
    let mut i: usize = 0;
    proof {
        assert(text::views(flags@) =~= Seq::empty());
        assert(text::views(positionals@) =~= Seq::empty());
    }
    while i < args.len()
        invariant
            all == text::views(args@),
            i <= args@.len(),
            read_args(all, 0, no_args()) == read_args(
                all,
                i as int,
                ArgsView { flags: text::views(flags@), positionals: text::views(positionals@) },
            ),
        decreases args@.len() - i,
    {
        let arg = args[i].as_str();
        assert(all[i as int] == arg@);
        proof {
            reveal_strlit("--");
            reveal_strlit("-");
        }
        if let Some(rest) = strip_prefix(arg, "--") {
            if rest.as_str().is_empty() {
                return Err("empty option '--'".to_owned());
            }
            let flag = match split_once(rest.as_str(), '=') {
                Some((name, value)) => Flag { name, value },
                None => if i + 1 < args.len() && !starts_with(args[i + 1].as_str(), "-") {
                    i = i + 1;
                    Flag { name: rest, value: args[i].clone() }
                } else {
                    Flag { name: rest, value: "true".to_owned() }
                },
            };
            proof {
                text::lemma_views_push(flags@, flag);
            }
            flags.push(flag);
        } else if let Some(short) = strip_prefix(arg, "-") {
            if same(short.as_str(), "h") {
                let flag = Flag { name: "help".to_owned(), value: "true".to_owned() };
                proof {
                    text::lemma_views_push(flags@, flag);
                }
                flags.push(flag);
            } else {
                let start = joined("unsupported short option '-", short.as_str());
                return Err(joined(start.as_str(), "'"));
            }
        } else {
            let positional = args[i].clone();
            proof {
                text::lemma_views_push(positionals@, positional);
            }
            positionals.push(positional);
        }
        i = i + 1;
    }
    Ok(ParsedArgs { flags, positionals })
}

/// The roots that arguments name: values of `--root`, values of `--path`, then what stands
/// without an option.
pub open spec fn named_roots(a: ArgsView) -> Seq<Seq<char>> {
    all_values(a.flags, "root"@) + all_values(a.flags, "path"@) + a.positionals
}

/// The language of a name; C++ where there is none.
pub open spec fn language_of(value: Option<Seq<char>>) -> Result<Language, Seq<char>> {
    match value {
        Some(v) => {
            let low = text::ascii_lowered(v);
            if low == "c"@ {
                Ok(Language::C)
            } else if low == "cpp"@ || low == "c++"@ || low == "cc"@ {
                Ok(Language::Cpp)
            } else {
                Err("unsupported language '"@ + low + "'; use c or cpp"@)
            }
        },
        None => Ok(Language::Cpp),
    }
}

/// The view of an optional text.
pub open spec fn opt_text(o: Option<&str>) -> Option<Seq<char>> {
    match o {
        Some(s) => Some(s@),
        None => None,
    }
}

impl ParsedArgs {
    /// The value that an option was given last.
    pub fn value(&self, name: &str) -> (r: Option<&str>)
        ensures
            opt_text(r) == self@.value(name@),
    {
        let ghost all = text::views(self.flags@);
        let mut i: usize = self.flags.len();
        assert(all.take(i as int) =~= all);
        while i > 0
            invariant
                all == text::views(self.flags@),
                i <= self.flags@.len(),
                last_value(all, name@) == last_value(all.take(i as int), name@),
            decreases i,
        {
            i = i - 1;
            proof {
                assert(all.take(i + 1).drop_last() =~= all.take(i as int));
                assert(all.take(i + 1).last() == self.flags@[i as int]@);
            }
            if same(self.flags[i].name.as_str(), name) {
                return Some(self.flags[i].value.as_str());
            }
        }
        None
    }

    /// The value of an option, or else that of another.
    pub fn value_or(&self, name: &str, other: &str) -> (r: Option<&str>)
        ensures
            opt_text(r) == self@.value_or(name@, other@),
    {
        match self.value(name) {
            Some(v) => Some(v),
            None => self.value(other),
        }
    }

    /// The values that an option was given, in order.
    pub fn values(&self, name: &str) -> (r: Vec<String>)
        ensures
            text::views(r@) == all_values(self@.flags, name@),
    {
        let ghost all = text::views(self.flags@);
        let mut r: Vec<String> = Vec::new();
        let mut i: usize = 0;
        assert(text::views(r@) =~= Seq::empty());
        while i < self.flags.len()
            invariant
                all == text::views(self.flags@),
                i <= self.flags@.len(),
                text::views(r@) == all_values(all.take(i as int), name@),
            decreases self.flags@.len() - i,
        {
            proof {
                assert(all.take(i + 1).drop_last() =~= all.take(i as int));
                assert(all.take(i + 1).last() == self.flags@[i as int]@);
            }
            if same(self.flags[i].name.as_str(), name) {
                let value = self.flags[i].value.clone();
                proof {
                    text::lemma_views_push(r@, value);
                }
                r.push(value);
            }
            i = i + 1;
        }
        assert(all.take(i as int) =~= all);
        r
    }

    /// Whether an option is set to anything but `false` or `0`.
    pub fn bool_flag(&self, name: &str) -> (r: bool)
        ensures
            r == self@.is_set(name@),
    {
        match self.value(name) {
            Some(v) => !same(v, "false") && !same(v, "0"),
            None => false,
        }
    }

    /// The value of an option that has to be there.
    pub fn required_value(&self, name: &str) -> (r: Result<&str, String>)
        ensures
            match r {
                Ok(v) => self@.value(name@) == Some(v@),
                Err(e) => self@.value(name@) is None && e@ == "missing required --"@ + name@,
            },
    {
        match self.value(name) {
            Some(v) => Ok(v),
            None => Err(joined("missing required --", name)),
        }
    }

    /// The database.
    pub fn db_path(&self) -> (r: &str)
        ensures
            r@ == self@.db(),
    {
        match self.value("db") {
            Some(v) => v,
            None => DEFAULT_DB_PATH,
        }
    }

    /// The symbol that a command is about.
    pub fn first_symbol(&self) -> (r: Result<&str, String>)
        ensures
            match r {
                Ok(v) => self@.symbol() == Some(v@),
                Err(e) => self@.symbol() is None && e@ == "missing symbol name"@,
            },
    {
        if self.positionals.len() > 0 {
            return Ok(self.positionals[0].as_str());
        }
        match self.value_or("name", "symbol") {
            Some(v) => Ok(v),
            None => Err("missing symbol name".to_owned()),
        }
    }

    /// How many results to give: 20 where no number is given.
    pub fn limit(&self) -> (r: usize)
        ensures
            r == self@.limit(),
    {
        match usize_of(self.value("limit")) {
            Some(n) => n,
            None => 20,
        }
    }

    /// How many lines of source to show around a place: 3 where no number is given.
    pub fn radius(&self) -> (r: usize)
        ensures
            r == self@.radius(),
    {
        match usize_of(self.value_or("context", "radius")) {
            Some(n) => n,
            None => 3,
        }
    }

    /// The number of worker threads, where one is given.
    pub fn threads(&self) -> (r: Option<usize>)
        ensures
            match r {
                Some(n) => self@.number(self@.value("threads"@)) == Some(n as int),
                None => self@.number(self@.value("threads"@)) is None,
            },
    {
        usize_of(self.value("threads"))
    }

    /// How many references to collect: those of calls where nothing is said.
    pub fn reference_mode(&self) -> (r: Result<ReferenceMode, String>)
        ensures
            match (r, self@.reference_mode()) {
                (Ok(a), Ok(b)) => a == b,
                (Err(a), Err(b)) => a@ == b,
                _ => false,
            },
    {
        if self.bool_flag("all-references") {
            return Ok(ReferenceMode::All);
        }
        match self.value_or("references", "reference-mode") {
            Some(v) => parse_reference_mode(v),
            None => Ok(ReferenceMode::Calls),
        }
    }
}

/// The number that a text spells.
pub fn usize_of(value: Option<&str>) -> (r: Option<usize>)
    ensures
        match (r, value) {
            (Some(n), Some(v)) => text::number_upto(v@, usize::MAX as int) == Some(n as int),
            (None, Some(v)) => text::number_upto(v@, usize::MAX as int) is None,
            (_, None) => r is None,
        },
{
    match value {
        Some(v) => match parse_number(v, usize::MAX as u64) {
            Some(n) => Some(n as usize),
            None => None,
        },
        None => None,
    }
}

/// The reference mode of a name.
pub fn parse_reference_mode(v: &str) -> (r: Result<ReferenceMode, String>)
    ensures
        match (r, reference_mode_of(v@)) {
            (Ok(a), Ok(b)) => a == b,
            (Err(a), Err(b)) => a@ == b,
            _ => false,
        },
{
    if same(v, "none") || same(v, "off") || same(v, "false") || same(v, "0") {
        Ok(ReferenceMode::Off)
    } else if same(v, "calls") || same(v, "call") || same(v, "call-sites") {
        Ok(ReferenceMode::Calls)
    } else if same(v, "all") || same(v, "identifiers") || same(v, "full") {
        Ok(ReferenceMode::All)
    } else {
        let start = joined("unsupported reference mode '", v);
        Err(joined(start.as_str(), "'; use none, calls, or all"))
    }
}

/// The roots that arguments name: an error where there are none.
pub fn roots_from_args(args: &ParsedArgs, command: &str) -> (r: Result<Vec<String>, String>)
    ensures
        match r {
            Ok(v) => v@.len() > 0 && text::views(v@) == named_roots(args@),
            Err(e) => named_roots(args@).len() == 0 && e@ == command@
                + " requires at least one --root PATH or positional PATH"@,
        },
{
    let mut roots = args.values("root");
    let mut paths = args.values("path");
    let ghost a = roots@;
    let ghost b = paths@;
    roots.append(&mut paths);
    let mut i: usize = 0;
    let ghost before = text::views(a) + text::views(b);
    let ghost all = args@.positionals;
    assert(text::views(roots@) =~= before + all.take(0));
    while i < args.positionals.len()
        invariant
            i <= args.positionals@.len(),
            all == args@.positionals,
            text::views(roots@) == before + all.take(i as int),
        decreases args.positionals@.len() - i,
    {
        let root = args.positionals[i].clone();
        proof {
            text::lemma_views_push(roots@, root);
        }
        roots.push(root);
        i = i + 1;
        assert(before + all.take(i as int) =~= (before + all.take(i - 1)).push(all[i - 1]));
    }
    assert(all.take(i as int) =~= all);
    assert(text::views(roots@).len() == roots@.len());
    if roots.len() == 0 {
        return Err(joined(command, " requires at least one --root PATH or positional PATH"));
    }
    Ok(roots)
}

/// The language of a name: C++ where there is none.
pub fn parse_language(value: Option<&str>) -> (r: Result<Language, String>)
    ensures
        match (r, language_of(opt_text(value))) {
            (Ok(a), Ok(b)) => a == b,
            (Err(a), Err(b)) => a@ == b,
            _ => false,
        },
{
    let low = match value {
        Some(v) => to_ascii_lower(v),
        None => {
            return Ok(Language::Cpp);
        },
    };
    if same(low.as_str(), "c") {
        Ok(Language::C)
    } else if same(low.as_str(), "cpp") || same(low.as_str(), "c++") || same(low.as_str(), "cc") {
        Ok(Language::Cpp)
    } else {
        let start = joined("unsupported language '", low.as_str());
        Err(joined(start.as_str(), "'; use c or cpp"))
    }
}

} // verus!
