//! What holds of the text that references carry.
use crate::cpp_parser;
use crate::language::ReferenceMode;
use crate::parser_laws;
use crate::ref_pass;
use crate::syntax::SyntaxTree;
use crate::text;
use vstd::prelude::*;

verus! {

/// Whether a text is cut around one of its lines.
pub open spec fn is_cut(
    source: Seq<char>,
    before: Seq<char>,
    line: Seq<char>,
    behind: Seq<char>,
) -> bool {
    &&& source == before + line + behind
    &&& before.len() == 0 || before.last() == '\n'
    &&& !line.contains('\n')
    &&& behind.len() == 0 || behind[0] == '\n'
}

/// The number of line feeds of a text.
pub open spec fn feeds(s: Seq<char>) -> nat
    decreases s.len(),
{
    if s.len() == 0 {
        0
    } else {
        feeds(s.drop_last()) + if s.last() == '\n' {
            1nat
        } else {
            0nat
        }
    }
}

/// A text that ends where a line starts has that line, empty, as its last.
proof fn lemma_before(before: Seq<char>)
    requires
        before.len() == 0 || before.last() == '\n',
    ensures
        text::lines(before).len() == feeds(before) + 1,
        text::lines(before).last().len() == 0,
{
    lemma_count(before);
}

/// A text has one line more than it has line feeds.
proof fn lemma_count(s: Seq<char>)
    ensures
        text::lines(s).len() == feeds(s) + 1,
    decreases s.len(),
{
    if s.len() > 0 {
        lemma_count(s.drop_last());
    }
}

/// A text that ends with a line has that line as its last.
proof fn lemma_upto(before: Seq<char>, line: Seq<char>)
    requires
        before.len() == 0 || before.last() == '\n',
        !line.contains('\n'),
    ensures
        text::lines(before + line).len() == feeds(before) + 1,
        text::lines(before + line).last() == line,
    decreases line.len(),
{
    lemma_before(before);
    let s = before + line;
    if line.len() == 0 {
        assert(s =~= before);
        assert(text::lines(before).last() =~= line);
    } else {
        let short = line.drop_last();
        assert forall|i: int| 0 <= i < short.len() implies short[i] != '\n' by {
            assert(line.contains(line[i]));
        }
        assert(!short.contains('\n'));
        lemma_upto(before, short);
        assert(s.drop_last() =~= before + short);
        assert(s.last() == line.last());
        assert(line.contains(line.last()));
        assert(short.push(line.last()) =~= line);
    }
}

/// What follows a line does not change it.
proof fn lemma_line(before: Seq<char>, line: Seq<char>, behind: Seq<char>)
    requires
        is_cut(before + line + behind, before, line, behind),
    ensures
        ({
            let all = text::lines(before + line + behind);
            let k = feeds(before) as int;
            &&& k < all.len()
            &&& behind.len() > 0 ==> k < all.len() - 1
            &&& behind.len() == 0 ==> k == all.len() - 1
            &&& all[k] == line
        }),
    decreases behind.len(),
{
    let s = before + line + behind;
    if behind.len() == 0 {
        lemma_upto(before, line);
        assert(s =~= before + line);
    } else {
        let short = behind.drop_last();
        assert(s.drop_last() =~= before + line + short);
        assert(s.last() == behind.last());
        if short.len() > 0 {
            assert(short[0] == behind[0]);
        }
        lemma_line(before, line, short);
    }
}

/// A reference carries the whole text of the line that it stands in, and of no other, where contexts
/// are kept; where they are not, it carries none.
pub proof fn law_references_carry_the_text_of_their_line(
    path: Seq<char>,
    source: Seq<char>,
    language: Seq<char>,
    t: SyntaxTree,
    mode: ReferenceMode,
    with_context: bool,
    k: int,
    before: Seq<char>,
    line: Seq<char>,
    behind: Seq<char>,
)
    requires
        0 <= k < cpp_parser::tree_symbols(
            path,
            source,
            language,
            t,
            mode,
            with_context,
        ).references.len(),
        is_cut(source, before, line, behind),
        cpp_parser::tree_symbols(
            path,
            source,
            language,
            t,
            mode,
            with_context,
        ).references[k].location.line == feeds(before) + 1,
        line.len() > 0 || behind.len() > 0,
    ensures
        cpp_parser::tree_symbols(
            path,
            source,
            language,
            t,
            mode,
            with_context,
        ).references[k].context == if with_context {
            Some(line)
        } else {
            None
        },
{
    let s = cpp_parser::tree_symbols(path, source, language, t, mode, with_context);
    let env = cpp_parser::reference_env(path, source, s.definitions, mode, with_context);
    parser_laws::law_references_and_calls_are_sound(path, source, language, t, mode, with_context);
    assert(parser_laws::sound_reference(env, s.references[k]));
    lemma_line(before, line, behind);
    assert(with_context ==> ref_pass::line_text(source, (feeds(before) + 1) as int) == Some(line));
}

} // verus!
