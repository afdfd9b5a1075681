//! The fingerprint of a file's symbols tells any two symbols apart.
use crate::argument_laws;
use crate::checksum;
use crate::contents_laws;
use crate::incremental;
use crate::incremental_laws;
use crate::index::IndexView;
use crate::reindex::{FoundFileView, ParsedUpdateView};
use crate::reindex;
use crate::reindex_laws;
use crate::rows::{RefRowView, TablesView};
use crate::save;
use crate::text;
use crate::types;
use crate::types::{
    CallEdgeView, DefinitionView, FileSymbolsView, InheritEdgeView, LocationView, ReferenceView,
    Visibility,
};
use vstd::prelude::*;
use vstd::string::*;
use vstd::utf8::*;

verus! {

/// No byte of a character's encoding has all bits set.
proof fn lemma_scalar_bytes(c: u32, i: int)
    requires
        0 <= i < encode_scalar(c).len(),
    ensures
        encode_scalar(c)[i] != 0xff,
{
    assert((c & 0x7F) as u8 != 0xffu8) by (bit_vector);
    assert(0xC0u8 | ((c >> 6) & 0x1F) as u8 != 0xffu8) by (bit_vector);
    assert(0xE0u8 | ((c >> 12) & 0x0F) as u8 != 0xffu8) by (bit_vector);
    assert(0xF0u8 | ((c >> 18) & 0x7) as u8 != 0xffu8) by (bit_vector);
    assert(0x80u8 | (c & 0x3F) as u8 != 0xffu8) by (bit_vector);
    assert(0x80u8 | ((c >> 6) & 0x3F) as u8 != 0xffu8) by (bit_vector);
    assert(0x80u8 | ((c >> 12) & 0x3F) as u8 != 0xffu8) by (bit_vector);
}

/// No byte of a text has all bits set.
proof fn lemma_text_holds_no_end(s: Seq<char>, i: int)
    requires
        0 <= i < encode_utf8(s).len(),
    ensures
        encode_utf8(s)[i] != 0xff,
    decreases s.len(),
{
    let first = encode_scalar(s[0] as u32);
    if i < first.len() {
        lemma_scalar_bytes(s[0] as u32, i);
    } else {
        lemma_text_holds_no_end(s.drop_first(), i - first.len());
    }
}

/// Where one text ends among bytes is settled by the bytes.
proof fn lemma_text_first(a: Seq<char>, b: Seq<char>, s: Seq<u8>, t: Seq<u8>)
    requires
        checksum::text_bytes(a) + s == checksum::text_bytes(b) + t,
    ensures
        a == b,
        s == t,
{
    let x = encode_utf8(a);
    let y = encode_utf8(b);
    let all = checksum::text_bytes(a) + s;
    let other = checksum::text_bytes(b) + t;
    if x.len() < y.len() {
        assert(all[x.len() as int] == 0xff);
        assert(other[x.len() as int] == y[x.len() as int]);
        lemma_text_holds_no_end(b, x.len() as int);
    }
    if y.len() < x.len() {
        assert(other[y.len() as int] == 0xff);
        assert(all[y.len() as int] == x[y.len() as int]);
        lemma_text_holds_no_end(a, y.len() as int);
    }
    lemma_same_first(checksum::text_bytes(a), checksum::text_bytes(b), s, t);
    assert(x =~= checksum::text_bytes(a).drop_last());
    assert(y =~= checksum::text_bytes(b).drop_last());
    encode_utf8_decode_utf8(a);
    encode_utf8_decode_utf8(b);
}

/// Parts of one length in front of equal bytes are equal.
proof fn lemma_same_first(a: Seq<u8>, b: Seq<u8>, s: Seq<u8>, t: Seq<u8>)
    requires
        a + s == b + t,
        a.len() == b.len(),
    ensures
        a == b,
        s == t,
{
    assert(a =~= (a + s).take(a.len() as int));
    assert(b =~= (b + t).take(b.len() as int));
    assert(s =~= (a + s).skip(a.len() as int));
    assert(t =~= (b + t).skip(b.len() as int));
}

/// Parts can be put together from either side.
proof fn lemma_assoc(a: Seq<u8>, b: Seq<u8>, c: Seq<u8>)
    ensures
        a + b + c == a + (b + c),
{
    assert(a + b + c =~= a + (b + c));
}

/// How many numbers some bytes can tell apart.
spec fn numbers(n: nat) -> nat
    decreases n,
{
    if n == 0 {
        1
    } else {
        256 * numbers((n - 1) as nat)
    }
}

/// The bytes of a number determine it.
proof fn lemma_number_bytes(a: nat, b: nat, n: nat)
    requires
        a < numbers(n),
        b < numbers(n),
        checksum::le_bytes(a, n) == checksum::le_bytes(b, n),
    ensures
        a == b,
    decreases n,
{
    if n > 0 {
        let m = (n - 1) as nat;
        let (x, y) = (checksum::le_bytes(a, n), checksum::le_bytes(b, n));
        lemma_number_length(a / 256, m);
        lemma_number_length(b / 256, m);
        assert(x[0] == (a % 256) as u8);
        assert(y[0] == (b % 256) as u8);
        assert(x.skip(1) =~= checksum::le_bytes(a / 256, m));
        assert(y.skip(1) =~= checksum::le_bytes(b / 256, m));
        lemma_number_bytes(a / 256, b / 256, m);
    }
}

/// How many bytes a number has.
proof fn lemma_number_length(a: nat, n: nat)
    ensures
        checksum::le_bytes(a, n).len() == n,
    decreases n,
{
    if n > 0 {
        lemma_number_length(a / 256, (n - 1) as nat);
    }
}

/// A word in front of equal bytes.
proof fn lemma_word_first(a: usize, b: usize, s: Seq<u8>, t: Seq<u8>)
    requires
        checksum::word_bytes(a) + s == checksum::word_bytes(b) + t,
    ensures
        a == b,
        s == t,
{
    let n = (usize::BITS / 8) as nat;
    lemma_number_length(a as nat, n);
    lemma_number_length(b as nat, n);
    lemma_same_first(checksum::word_bytes(a), checksum::word_bytes(b), s, t);
    assert(numbers(4) == 0x1_0000_0000 && numbers(8) == 0x1_0000_0000_0000_0000) by {
        reveal_with_fuel(numbers, 9);
    }
    assert(n == 4 || n == 8);
    assert(usize::MAX < numbers(n));
    lemma_number_bytes(a as nat, b as nat, n);
}

/// An optional text in front of equal bytes.
proof fn lemma_optional_first(
    a: Option<Seq<char>>,
    b: Option<Seq<char>>,
    s: Seq<u8>,
    t: Seq<u8>,
)
    requires
        checksum::optional_bytes(a) + s == checksum::optional_bytes(b) + t,
    ensures
        a == b,
        s == t,
{
    let all = checksum::optional_bytes(a) + s;
    let other = checksum::optional_bytes(b) + t;
    assert(all[0] == checksum::bool_byte(a is Some));
    assert(other[0] == checksum::bool_byte(b is Some));
    match (a, b) {
        (Some(x), Some(y)) => {
            let one = seq![checksum::bool_byte(true)];
            lemma_assoc(one, checksum::text_bytes(x), s);
            lemma_assoc(one, checksum::text_bytes(y), t);
            lemma_same_first(one, one, checksum::text_bytes(x) + s, checksum::text_bytes(y) + t);
            lemma_text_first(x, y, s, t);
        },
        (None, None) => {
            lemma_same_first(checksum::optional_bytes(a), checksum::optional_bytes(b), s, t);
        },
        _ => {},
    }
}

/// A truth value in front of equal bytes.
proof fn lemma_bool_first(a: bool, b: bool, s: Seq<u8>, t: Seq<u8>)
    requires
        seq![checksum::bool_byte(a)] + s == seq![checksum::bool_byte(b)] + t,
    ensures
        a == b,
        s == t,
{
    let (x, y) = (seq![checksum::bool_byte(a)], seq![checksum::bool_byte(b)]);
    assert((x + s)[0] == x[0] && (y + t)[0] == y[0]);
    lemma_same_first(x, y, s, t);
}

/// No two visibilities have one name.
proof fn lemma_visibility_names(a: Visibility, b: Visibility)
    requires
        a.name() == b.name(),
    ensures
        a == b,
{
    reveal_strlit("public");
    reveal_strlit("protected");
    reveal_strlit("private");
    assert("public"@.len() == 6 && "protected"@.len() == 9 && "private"@.len() == 7);
}

/// The bytes of a location, part by part.
proof fn lemma_location_split(l: LocationView, s: Seq<u8>)
    ensures
        checksum::location_bytes(l) + s == checksum::text_bytes(l.file) + (checksum::word_bytes(l.line) + (checksum::word_bytes(l.column) + (checksum::word_bytes(l.end_line) + (checksum::word_bytes(l.end_column) + s)))),
{
    let p0 = checksum::text_bytes(l.file);
    let p1 = checksum::word_bytes(l.line);
    let p2 = checksum::word_bytes(l.column);
    let p3 = checksum::word_bytes(l.end_line);
    let p4 = checksum::word_bytes(l.end_column);
    let r4 = p4 + s;
    lemma_assoc(p0 + p1 + p2 + p3, p4, s);
    let r3 = p3 + r4;
    lemma_assoc(p0 + p1 + p2, p3, r4);
    let r2 = p2 + r3;
    lemma_assoc(p0 + p1, p2, r3);
    let r1 = p1 + r2;
    lemma_assoc(p0, p1, r2);
}

/// A location in front of equal bytes.
proof fn lemma_location_first(a: LocationView, b: LocationView, s: Seq<u8>, t: Seq<u8>)
    requires
        checksum::location_bytes(a) + s == checksum::location_bytes(b) + t,
    ensures
        a == b,
        s == t,
{
    lemma_location_split(a, s);
    lemma_location_split(b, t);
    let (s4, t4) = (
        checksum::word_bytes(a.end_column) + s,
        checksum::word_bytes(b.end_column) + t,
    );
    let (s3, t3) = (checksum::word_bytes(a.end_line) + s4, checksum::word_bytes(b.end_line) + t4);
    let (s2, t2) = (checksum::word_bytes(a.column) + s3, checksum::word_bytes(b.column) + t3);
    let (s1, t1) = (checksum::word_bytes(a.line) + s2, checksum::word_bytes(b.line) + t2);
    lemma_text_first(a.file, b.file, s1, t1);
    lemma_word_first(a.line, b.line, s2, t2);
    lemma_word_first(a.column, b.column, s3, t3);
    lemma_word_first(a.end_line, b.end_line, s4, t4);
    lemma_word_first(a.end_column, b.end_column, s, t);
}

/// Whether two definitions are the same in all but their numbers.
pub open spec fn same_definition(a: DefinitionView, b: DefinitionView) -> bool {
    a.name == b.name && a.qualified_name == b.qualified_name && a.kind == b.kind && a.location
        == b.location && a.parent == b.parent && a.signature == b.signature && a.visibility
        == b.visibility && a.is_definition == b.is_definition && a.extra == b.extra
}

/// Whether two references use the same name, as the same kind of symbol, at the same location.
pub open spec fn same_reference(a: ReferenceView, b: ReferenceView) -> bool {
    a.name == b.name && a.kind == b.kind && a.location == b.location
}

/// The bytes of a definition, part by part.
proof fn lemma_definition_split(d: DefinitionView, s: Seq<u8>)
    ensures
        checksum::definition_bytes(d) + s == checksum::text_bytes("def"@) + (checksum::text_bytes(d.name) + (checksum::text_bytes(d.qualified_name) + (checksum::text_bytes(d.kind.name()) + (checksum::location_bytes(d.location) + (checksum::optional_bytes(d.parent) + (checksum::optional_bytes(d.signature) + (checksum::text_bytes(d.visibility.name()) + (seq![checksum::bool_byte(d.is_definition)] + (checksum::optional_bytes(d.extra) + s))))))))),
{
    let p0 = checksum::text_bytes("def"@);
    let p1 = checksum::text_bytes(d.name);
    let p2 = checksum::text_bytes(d.qualified_name);
    let p3 = checksum::text_bytes(d.kind.name());
    let p4 = checksum::location_bytes(d.location);
    let p5 = checksum::optional_bytes(d.parent);
    let p6 = checksum::optional_bytes(d.signature);
    let p7 = checksum::text_bytes(d.visibility.name());
    let p8 = seq![checksum::bool_byte(d.is_definition)];
    let p9 = checksum::optional_bytes(d.extra);
    let r9 = p9 + s;
    lemma_assoc(p0 + p1 + p2 + p3 + p4 + p5 + p6 + p7 + p8, p9, s);
    let r8 = p8 + r9;
    lemma_assoc(p0 + p1 + p2 + p3 + p4 + p5 + p6 + p7, p8, r9);
    let r7 = p7 + r8;
    lemma_assoc(p0 + p1 + p2 + p3 + p4 + p5 + p6, p7, r8);
    let r6 = p6 + r7;
    lemma_assoc(p0 + p1 + p2 + p3 + p4 + p5, p6, r7);
    let r5 = p5 + r6;
    lemma_assoc(p0 + p1 + p2 + p3 + p4, p5, r6);
    let r4 = p4 + r5;
    lemma_assoc(p0 + p1 + p2 + p3, p4, r5);
    let r3 = p3 + r4;
    lemma_assoc(p0 + p1 + p2, p3, r4);
    let r2 = p2 + r3;
    lemma_assoc(p0 + p1, p2, r3);
    let r1 = p1 + r2;
    lemma_assoc(p0, p1, r2);
}

/// The bytes of a reference, part by part.
proof fn lemma_reference_split(r: ReferenceView, s: Seq<u8>)
    ensures
        checksum::reference_bytes(r) + s == checksum::text_bytes("ref"@) + (checksum::text_bytes(r.name) + (checksum::text_bytes(r.kind.name()) + (checksum::location_bytes(r.location) + s))),
{
    let p0 = checksum::text_bytes("ref"@);
    let p1 = checksum::text_bytes(r.name);
    let p2 = checksum::text_bytes(r.kind.name());
    let p3 = checksum::location_bytes(r.location);
    let r3 = p3 + s;
    lemma_assoc(p0 + p1 + p2, p3, s);
    let r2 = p2 + r3;
    lemma_assoc(p0 + p1, p2, r3);
    let r1 = p1 + r2;
    lemma_assoc(p0, p1, r2);
}

/// The bytes of a call, part by part.
proof fn lemma_call_split(c: CallEdgeView, s: Seq<u8>)
    ensures
        checksum::call_bytes(c) + s == checksum::text_bytes("call"@) + (checksum::text_bytes(c.caller_name) + (checksum::text_bytes(c.callee_name) + (checksum::location_bytes(c.location) + s))),
{
    let p0 = checksum::text_bytes("call"@);
    let p1 = checksum::text_bytes(c.caller_name);
    let p2 = checksum::text_bytes(c.callee_name);
    let p3 = checksum::location_bytes(c.location);
    let r3 = p3 + s;
    lemma_assoc(p0 + p1 + p2, p3, s);
    let r2 = p2 + r3;
    lemma_assoc(p0 + p1, p2, r3);
    let r1 = p1 + r2;
    lemma_assoc(p0, p1, r2);
}

/// The bytes of an inheritance edge, part by part.
proof fn lemma_inherit_split(e: InheritEdgeView, s: Seq<u8>)
    ensures
        checksum::inherit_bytes(e) + s == checksum::text_bytes("inherit"@) + (checksum::text_bytes(e.derived_name) + (checksum::text_bytes(e.base_name) + (checksum::location_bytes(e.location) + (checksum::text_bytes(e.access.name()) + (seq![checksum::bool_byte(e.is_virtual)] + s))))),
{
    let p0 = checksum::text_bytes("inherit"@);
    let p1 = checksum::text_bytes(e.derived_name);
    let p2 = checksum::text_bytes(e.base_name);
    let p3 = checksum::location_bytes(e.location);
    let p4 = checksum::text_bytes(e.access.name());
    let p5 = seq![checksum::bool_byte(e.is_virtual)];
    let r5 = p5 + s;
    lemma_assoc(p0 + p1 + p2 + p3 + p4, p5, s);
    let r4 = p4 + r5;
    lemma_assoc(p0 + p1 + p2 + p3, p4, r5);
    let r3 = p3 + r4;
    lemma_assoc(p0 + p1 + p2, p3, r4);
    let r2 = p2 + r3;
    lemma_assoc(p0 + p1, p2, r3);
    let r1 = p1 + r2;
    lemma_assoc(p0, p1, r2);
}

/// A definition in front of equal bytes.
proof fn lemma_definition_first(a: DefinitionView, b: DefinitionView, s: Seq<u8>, t: Seq<u8>)
    requires
        checksum::definition_bytes(a) + s == checksum::definition_bytes(b) + t,
    ensures
        same_definition(a, b),
        s == t,
{
    lemma_definition_split(a, s);
    lemma_definition_split(b, t);
    let s9 = checksum::optional_bytes(a.extra) + s;
    let t9 = checksum::optional_bytes(b.extra) + t;
    let s8 = seq![checksum::bool_byte(a.is_definition)] + s9;
    let t8 = seq![checksum::bool_byte(b.is_definition)] + t9;
    let s7 = checksum::text_bytes(a.visibility.name()) + s8;
    let t7 = checksum::text_bytes(b.visibility.name()) + t8;
    let s6 = checksum::optional_bytes(a.signature) + s7;
    let t6 = checksum::optional_bytes(b.signature) + t7;
    let s5 = checksum::optional_bytes(a.parent) + s6;
    let t5 = checksum::optional_bytes(b.parent) + t6;
    let s4 = checksum::location_bytes(a.location) + s5;
    let t4 = checksum::location_bytes(b.location) + t5;
    let s3 = checksum::text_bytes(a.kind.name()) + s4;
    let t3 = checksum::text_bytes(b.kind.name()) + t4;
    let s2 = checksum::text_bytes(a.qualified_name) + s3;
    let t2 = checksum::text_bytes(b.qualified_name) + t3;
    let s1 = checksum::text_bytes(a.name) + s2;
    let t1 = checksum::text_bytes(b.name) + t2;
    lemma_text_first("def"@, "def"@, s1, t1);
    lemma_text_first(a.name, b.name, s2, t2);
    lemma_text_first(a.qualified_name, b.qualified_name, s3, t3);
    lemma_text_first(a.kind.name(), b.kind.name(), s4, t4);
    types::lemma_kind_names_distinct(a.kind, b.kind);
    lemma_location_first(a.location, b.location, s5, t5);
    lemma_optional_first(a.parent, b.parent, s6, t6);
    lemma_optional_first(a.signature, b.signature, s7, t7);
    lemma_text_first(a.visibility.name(), b.visibility.name(), s8, t8);
    lemma_visibility_names(a.visibility, b.visibility);
    lemma_bool_first(a.is_definition, b.is_definition, s9, t9);
    lemma_optional_first(a.extra, b.extra, s, t);
}

/// A reference in front of equal bytes.
proof fn lemma_reference_first(a: ReferenceView, b: ReferenceView, s: Seq<u8>, t: Seq<u8>)
    requires
        checksum::reference_bytes(a) + s == checksum::reference_bytes(b) + t,
    ensures
        same_reference(a, b),
        s == t,
{
    lemma_reference_split(a, s);
    lemma_reference_split(b, t);
    let s3 = checksum::location_bytes(a.location) + s;
    let t3 = checksum::location_bytes(b.location) + t;
    let s2 = checksum::text_bytes(a.kind.name()) + s3;
    let t2 = checksum::text_bytes(b.kind.name()) + t3;
    let s1 = checksum::text_bytes(a.name) + s2;
    let t1 = checksum::text_bytes(b.name) + t2;
    lemma_text_first("ref"@, "ref"@, s1, t1);
    lemma_text_first(a.name, b.name, s2, t2);
    lemma_text_first(a.kind.name(), b.kind.name(), s3, t3);
    types::lemma_kind_names_distinct(a.kind, b.kind);
    lemma_location_first(a.location, b.location, s, t);
}

/// A call in front of equal bytes.
proof fn lemma_call_first(a: CallEdgeView, b: CallEdgeView, s: Seq<u8>, t: Seq<u8>)
    requires
        checksum::call_bytes(a) + s == checksum::call_bytes(b) + t,
    ensures
        a == b,
        s == t,
{
    lemma_call_split(a, s);
    lemma_call_split(b, t);
    let s3 = checksum::location_bytes(a.location) + s;
    let t3 = checksum::location_bytes(b.location) + t;
    let s2 = checksum::text_bytes(a.callee_name) + s3;
    let t2 = checksum::text_bytes(b.callee_name) + t3;
    let s1 = checksum::text_bytes(a.caller_name) + s2;
    let t1 = checksum::text_bytes(b.caller_name) + t2;
    lemma_text_first("call"@, "call"@, s1, t1);
    lemma_text_first(a.caller_name, b.caller_name, s2, t2);
    lemma_text_first(a.callee_name, b.callee_name, s3, t3);
    lemma_location_first(a.location, b.location, s, t);
}

/// An inheritance edge in front of equal bytes.
proof fn lemma_inherit_first(a: InheritEdgeView, b: InheritEdgeView, s: Seq<u8>, t: Seq<u8>)
    requires
        checksum::inherit_bytes(a) + s == checksum::inherit_bytes(b) + t,
    ensures
        a == b,
        s == t,
{
    lemma_inherit_split(a, s);
    lemma_inherit_split(b, t);
    let s5 = seq![checksum::bool_byte(a.is_virtual)] + s;
    let t5 = seq![checksum::bool_byte(b.is_virtual)] + t;
    let s4 = checksum::text_bytes(a.access.name()) + s5;
    let t4 = checksum::text_bytes(b.access.name()) + t5;
    let s3 = checksum::location_bytes(a.location) + s4;
    let t3 = checksum::location_bytes(b.location) + t4;
    let s2 = checksum::text_bytes(a.base_name) + s3;
    let t2 = checksum::text_bytes(b.base_name) + t3;
    let s1 = checksum::text_bytes(a.derived_name) + s2;
    let t1 = checksum::text_bytes(b.derived_name) + t2;
    lemma_text_first("inherit"@, "inherit"@, s1, t1);
    lemma_text_first(a.derived_name, b.derived_name, s2, t2);
    lemma_text_first(a.base_name, b.base_name, s3, t3);
    lemma_location_first(a.location, b.location, s4, t4);
    lemma_text_first(a.access.name(), b.access.name(), s5, t5);
    lemma_visibility_names(a.access, b.access);
    lemma_bool_first(a.is_virtual, b.is_virtual, s, t);
}

/// Whether bytes do not begin with a text.
spec fn begins_otherwise(s: Seq<u8>, tag: Seq<char>) -> bool {
    forall|u: Seq<u8>| s != #[trigger] (checksum::text_bytes(tag) + u)
}

/// Bytes that begin with one text do not begin with another.
proof fn lemma_begins(s: Seq<u8>, tag: Seq<char>, u: Seq<u8>, other: Seq<char>)
    requires
        s == checksum::text_bytes(tag) + u,
        tag != other,
    ensures
        begins_otherwise(s, other),
{
    assert forall|v: Seq<u8>| s != #[trigger] (checksum::text_bytes(other) + v) by {
        if s == checksum::text_bytes(other) + v {
            lemma_text_first(tag, other, u, v);
        }
    }
}

/// The bytes of a list begin with those of its first item.
proof fn lemma_definitions_front(a: Seq<DefinitionView>)
    requires
        a.len() > 0,
    ensures
        checksum::definitions_bytes(a) == checksum::definition_bytes(a[0]) + checksum::definitions_bytes(
            a.drop_first(),
        ),
    decreases a.len(),
{
    let short = a.drop_last();
    if a.len() == 1 {
        assert(short =~= Seq::empty());
        assert(a.drop_first() =~= Seq::empty());
        assert(checksum::definitions_bytes(short) =~= Seq::empty());
        assert(checksum::definitions_bytes(a.drop_first()) =~= Seq::empty());
        assert(Seq::<u8>::empty() + checksum::definition_bytes(a[0]) =~= checksum::definition_bytes(a[0])
            + Seq::<u8>::empty());
    } else {
        lemma_definitions_front(short);
        assert(a.drop_first().drop_last() =~= short.drop_first());
        assert(a.drop_first().last() == a.last());
        lemma_assoc(
            checksum::definition_bytes(a[0]),
            checksum::definitions_bytes(short.drop_first()),
            checksum::definition_bytes(a.last()),
        );
    }
}

/// Bytes that begin with a list begin with its tag, or with what follows.
proof fn lemma_definitions_begin(a: Seq<DefinitionView>, s: Seq<u8>, tag: Seq<char>)
    requires
        tag != "def"@,
        begins_otherwise(s, tag),
    ensures
        begins_otherwise(checksum::definitions_bytes(a) + s, tag),
{
    if a.len() == 0 {
        assert(checksum::definitions_bytes(a) + s =~= s);
    } else {
        let rest = checksum::definitions_bytes(a.drop_first());
        lemma_definitions_front(a);
        lemma_assoc(checksum::definition_bytes(a[0]), rest, s);
        lemma_definition_split(a[0], rest + s);
        let u = choose|u: Seq<u8>|
            checksum::definitions_bytes(a) + s == #[trigger] (checksum::text_bytes("def"@) + u);
        lemma_begins(checksum::definitions_bytes(a) + s, "def"@, u, tag);
    }
}

/// A list in front of equal bytes.
proof fn lemma_definitions_first(a: Seq<DefinitionView>, b: Seq<DefinitionView>, s: Seq<u8>, t: Seq<u8>)
    requires
        checksum::definitions_bytes(a) + s == checksum::definitions_bytes(b) + t,
        begins_otherwise(s, "def"@),
        begins_otherwise(t, "def"@),
    ensures
        a.len() == b.len(),
        forall|i: int| 0 <= i < a.len() ==> same_definition(#[trigger] a[i], b[i]),
        s == t,
    decreases a.len(),
{
    if a.len() > 0 {
        lemma_definitions_front(a);
        lemma_assoc(checksum::definition_bytes(a[0]), checksum::definitions_bytes(a.drop_first()), s);
        lemma_definition_split(a[0], checksum::definitions_bytes(a.drop_first()) + s);
    }
    if b.len() > 0 {
        lemma_definitions_front(b);
        lemma_assoc(checksum::definition_bytes(b[0]), checksum::definitions_bytes(b.drop_first()), t);
        lemma_definition_split(b[0], checksum::definitions_bytes(b.drop_first()) + t);
    }
    if a.len() == 0 {
        assert(checksum::definitions_bytes(a) + s =~= s);
    }
    if b.len() == 0 {
        assert(checksum::definitions_bytes(b) + t =~= t);
    }
    if a.len() > 0 && b.len() > 0 {
        let (x, y) = (a.drop_first(), b.drop_first());
        lemma_definition_first(
            a[0],
            b[0],
            checksum::definitions_bytes(x) + s,
            checksum::definitions_bytes(y) + t,
        );
        lemma_definitions_first(x, y, s, t);
        assert forall|i: int| 0 <= i < a.len() implies same_definition(#[trigger] a[i], b[i]) by {
            if i > 0 {
                assert(a[i] == x[i - 1] && b[i] == y[i - 1]);
            }
        }
    }
}

/// The bytes of a list begin with those of its first item.
proof fn lemma_references_front(a: Seq<ReferenceView>)
    requires
        a.len() > 0,
    ensures
        checksum::references_bytes(a) == checksum::reference_bytes(a[0]) + checksum::references_bytes(
            a.drop_first(),
        ),
    decreases a.len(),
{
    let short = a.drop_last();
    if a.len() == 1 {
        assert(short =~= Seq::empty());
        assert(a.drop_first() =~= Seq::empty());
        assert(checksum::references_bytes(short) =~= Seq::empty());
        assert(checksum::references_bytes(a.drop_first()) =~= Seq::empty());
        assert(Seq::<u8>::empty() + checksum::reference_bytes(a[0]) =~= checksum::reference_bytes(a[0])
            + Seq::<u8>::empty());
    } else {
        lemma_references_front(short);
        assert(a.drop_first().drop_last() =~= short.drop_first());
        assert(a.drop_first().last() == a.last());
        lemma_assoc(
            checksum::reference_bytes(a[0]),
            checksum::references_bytes(short.drop_first()),
            checksum::reference_bytes(a.last()),
        );
    }
}

/// Bytes that begin with a list begin with its tag, or with what follows.
proof fn lemma_references_begin(a: Seq<ReferenceView>, s: Seq<u8>, tag: Seq<char>)
    requires
        tag != "ref"@,
        begins_otherwise(s, tag),
    ensures
        begins_otherwise(checksum::references_bytes(a) + s, tag),
{
    if a.len() == 0 {
        assert(checksum::references_bytes(a) + s =~= s);
    } else {
        let rest = checksum::references_bytes(a.drop_first());
        lemma_references_front(a);
        lemma_assoc(checksum::reference_bytes(a[0]), rest, s);
        lemma_reference_split(a[0], rest + s);
        let u = choose|u: Seq<u8>|
            checksum::references_bytes(a) + s == #[trigger] (checksum::text_bytes("ref"@) + u);
        lemma_begins(checksum::references_bytes(a) + s, "ref"@, u, tag);
    }
}

/// A list in front of equal bytes.
proof fn lemma_references_first(a: Seq<ReferenceView>, b: Seq<ReferenceView>, s: Seq<u8>, t: Seq<u8>)
    requires
        checksum::references_bytes(a) + s == checksum::references_bytes(b) + t,
        begins_otherwise(s, "ref"@),
        begins_otherwise(t, "ref"@),
    ensures
        a.len() == b.len(),
        forall|i: int| 0 <= i < a.len() ==> same_reference(#[trigger] a[i], b[i]),
        s == t,
    decreases a.len(),
{
    if a.len() > 0 {
        lemma_references_front(a);
        lemma_assoc(checksum::reference_bytes(a[0]), checksum::references_bytes(a.drop_first()), s);
        lemma_reference_split(a[0], checksum::references_bytes(a.drop_first()) + s);
    }
    if b.len() > 0 {
        lemma_references_front(b);
        lemma_assoc(checksum::reference_bytes(b[0]), checksum::references_bytes(b.drop_first()), t);
        lemma_reference_split(b[0], checksum::references_bytes(b.drop_first()) + t);
    }
    if a.len() == 0 {
        assert(checksum::references_bytes(a) + s =~= s);
    }
    if b.len() == 0 {
        assert(checksum::references_bytes(b) + t =~= t);
    }
    if a.len() > 0 && b.len() > 0 {
        let (x, y) = (a.drop_first(), b.drop_first());
        lemma_reference_first(
            a[0],
            b[0],
            checksum::references_bytes(x) + s,
            checksum::references_bytes(y) + t,
        );
        lemma_references_first(x, y, s, t);
        assert forall|i: int| 0 <= i < a.len() implies same_reference(#[trigger] a[i], b[i]) by {
            if i > 0 {
                assert(a[i] == x[i - 1] && b[i] == y[i - 1]);
            }
        }
    }
}

/// The bytes of a list begin with those of its first item.
proof fn lemma_calls_front(a: Seq<CallEdgeView>)
    requires
        a.len() > 0,
    ensures
        checksum::calls_bytes(a) == checksum::call_bytes(a[0]) + checksum::calls_bytes(
            a.drop_first(),
        ),
    decreases a.len(),
{
    let short = a.drop_last();
    if a.len() == 1 {
        assert(short =~= Seq::empty());
        assert(a.drop_first() =~= Seq::empty());
        assert(checksum::calls_bytes(short) =~= Seq::empty());
        assert(checksum::calls_bytes(a.drop_first()) =~= Seq::empty());
        assert(Seq::<u8>::empty() + checksum::call_bytes(a[0]) =~= checksum::call_bytes(a[0])
            + Seq::<u8>::empty());
    } else {
        lemma_calls_front(short);
        assert(a.drop_first().drop_last() =~= short.drop_first());
        assert(a.drop_first().last() == a.last());
        lemma_assoc(
            checksum::call_bytes(a[0]),
            checksum::calls_bytes(short.drop_first()),
            checksum::call_bytes(a.last()),
        );
    }
}

/// Bytes that begin with a list begin with its tag, or with what follows.
proof fn lemma_calls_begin(a: Seq<CallEdgeView>, s: Seq<u8>, tag: Seq<char>)
    requires
        tag != "call"@,
        begins_otherwise(s, tag),
    ensures
        begins_otherwise(checksum::calls_bytes(a) + s, tag),
{
    if a.len() == 0 {
        assert(checksum::calls_bytes(a) + s =~= s);
    } else {
        let rest = checksum::calls_bytes(a.drop_first());
        lemma_calls_front(a);
        lemma_assoc(checksum::call_bytes(a[0]), rest, s);
        lemma_call_split(a[0], rest + s);
        let u = choose|u: Seq<u8>|
            checksum::calls_bytes(a) + s == #[trigger] (checksum::text_bytes("call"@) + u);
        lemma_begins(checksum::calls_bytes(a) + s, "call"@, u, tag);
    }
}

/// A list in front of equal bytes.
proof fn lemma_calls_first(a: Seq<CallEdgeView>, b: Seq<CallEdgeView>, s: Seq<u8>, t: Seq<u8>)
    requires
        checksum::calls_bytes(a) + s == checksum::calls_bytes(b) + t,
        begins_otherwise(s, "call"@),
        begins_otherwise(t, "call"@),
    ensures
        a.len() == b.len(),
        forall|i: int| 0 <= i < a.len() ==> #[trigger] a[i] == b[i],
        s == t,
    decreases a.len(),
{
    if a.len() > 0 {
        lemma_calls_front(a);
        lemma_assoc(checksum::call_bytes(a[0]), checksum::calls_bytes(a.drop_first()), s);
        lemma_call_split(a[0], checksum::calls_bytes(a.drop_first()) + s);
    }
    if b.len() > 0 {
        lemma_calls_front(b);
        lemma_assoc(checksum::call_bytes(b[0]), checksum::calls_bytes(b.drop_first()), t);
        lemma_call_split(b[0], checksum::calls_bytes(b.drop_first()) + t);
    }
    if a.len() == 0 {
        assert(checksum::calls_bytes(a) + s =~= s);
    }
    if b.len() == 0 {
        assert(checksum::calls_bytes(b) + t =~= t);
    }
    if a.len() > 0 && b.len() > 0 {
        let (x, y) = (a.drop_first(), b.drop_first());
        lemma_call_first(
            a[0],
            b[0],
            checksum::calls_bytes(x) + s,
            checksum::calls_bytes(y) + t,
        );
        lemma_calls_first(x, y, s, t);
        assert forall|i: int| 0 <= i < a.len() implies #[trigger] a[i] == b[i] by {
            if i > 0 {
                assert(a[i] == x[i - 1] && b[i] == y[i - 1]);
            }
        }
    }
}

/// The bytes of a list begin with those of its first item.
proof fn lemma_inherits_front(a: Seq<InheritEdgeView>)
    requires
        a.len() > 0,
    ensures
        checksum::inherits_bytes(a) == checksum::inherit_bytes(a[0]) + checksum::inherits_bytes(
            a.drop_first(),
        ),
    decreases a.len(),
{
    let short = a.drop_last();
    if a.len() == 1 {
        assert(short =~= Seq::empty());
        assert(a.drop_first() =~= Seq::empty());
        assert(checksum::inherits_bytes(short) =~= Seq::empty());
        assert(checksum::inherits_bytes(a.drop_first()) =~= Seq::empty());
        assert(Seq::<u8>::empty() + checksum::inherit_bytes(a[0]) =~= checksum::inherit_bytes(a[0])
            + Seq::<u8>::empty());
    } else {
        lemma_inherits_front(short);
        assert(a.drop_first().drop_last() =~= short.drop_first());
        assert(a.drop_first().last() == a.last());
        lemma_assoc(
            checksum::inherit_bytes(a[0]),
            checksum::inherits_bytes(short.drop_first()),
            checksum::inherit_bytes(a.last()),
        );
    }
}

/// Bytes that begin with a list begin with its tag, or with what follows.
proof fn lemma_inherits_begin(a: Seq<InheritEdgeView>, s: Seq<u8>, tag: Seq<char>)
    requires
        tag != "inherit"@,
        begins_otherwise(s, tag),
    ensures
        begins_otherwise(checksum::inherits_bytes(a) + s, tag),
{
    if a.len() == 0 {
        assert(checksum::inherits_bytes(a) + s =~= s);
    } else {
        let rest = checksum::inherits_bytes(a.drop_first());
        lemma_inherits_front(a);
        lemma_assoc(checksum::inherit_bytes(a[0]), rest, s);
        lemma_inherit_split(a[0], rest + s);
        let u = choose|u: Seq<u8>|
            checksum::inherits_bytes(a) + s == #[trigger] (checksum::text_bytes("inherit"@) + u);
        lemma_begins(checksum::inherits_bytes(a) + s, "inherit"@, u, tag);
    }
}

/// A list in front of equal bytes.
proof fn lemma_inherits_first(a: Seq<InheritEdgeView>, b: Seq<InheritEdgeView>, s: Seq<u8>, t: Seq<u8>)
    requires
        checksum::inherits_bytes(a) + s == checksum::inherits_bytes(b) + t,
        begins_otherwise(s, "inherit"@),
        begins_otherwise(t, "inherit"@),
    ensures
        a.len() == b.len(),
        forall|i: int| 0 <= i < a.len() ==> #[trigger] a[i] == b[i],
        s == t,
    decreases a.len(),
{
    if a.len() > 0 {
        lemma_inherits_front(a);
        lemma_assoc(checksum::inherit_bytes(a[0]), checksum::inherits_bytes(a.drop_first()), s);
        lemma_inherit_split(a[0], checksum::inherits_bytes(a.drop_first()) + s);
    }
    if b.len() > 0 {
        lemma_inherits_front(b);
        lemma_assoc(checksum::inherit_bytes(b[0]), checksum::inherits_bytes(b.drop_first()), t);
        lemma_inherit_split(b[0], checksum::inherits_bytes(b.drop_first()) + t);
    }
    if a.len() == 0 {
        assert(checksum::inherits_bytes(a) + s =~= s);
    }
    if b.len() == 0 {
        assert(checksum::inherits_bytes(b) + t =~= t);
    }
    if a.len() > 0 && b.len() > 0 {
        let (x, y) = (a.drop_first(), b.drop_first());
        lemma_inherit_first(
            a[0],
            b[0],
            checksum::inherits_bytes(x) + s,
            checksum::inherits_bytes(y) + t,
        );
        lemma_inherits_first(x, y, s, t);
        assert forall|i: int| 0 <= i < a.len() implies #[trigger] a[i] == b[i] by {
            if i > 0 {
                assert(a[i] == x[i - 1] && b[i] == y[i - 1]);
            }
        }
    }
}

/// The bytes that are fingerprinted determine the symbols: two files for which they are the same
/// have the same definitions, in all but their numbers; the same references, by name, kind and
/// location; the same calls; and the same inheritance edges.
pub proof fn law_fingerprinted_bytes_tell_symbols_apart(a: FileSymbolsView, b: FileSymbolsView)
    requires
        checksum::symbols_bytes(a) == checksum::symbols_bytes(b),
    ensures
        a.definitions.len() == b.definitions.len(),
        forall|i: int|
            0 <= i < a.definitions.len() ==> same_definition(
                #[trigger] a.definitions[i],
                b.definitions[i],
            ),
        a.references.len() == b.references.len(),
        forall|i: int|
            0 <= i < a.references.len() ==> same_reference(
                #[trigger] a.references[i],
                b.references[i],
            ),
        a.calls == b.calls,
        a.inherits == b.inherits,
{
    reveal_strlit("def");
    reveal_strlit("ref");
    reveal_strlit("call");
    reveal_strlit("inherit");
    assert("def"@.len() == 3 && "def"@[0] == 'd');
    assert("ref"@.len() == 3 && "ref"@[0] == 'r');
    assert("call"@.len() == 4 && "inherit"@.len() == 7);
    let none = Seq::<u8>::empty();
    assert forall|tag: Seq<char>| begins_otherwise(none, tag) by {
        assert forall|u: Seq<u8>| none != #[trigger] (checksum::text_bytes(tag) + u) by {
            assert((checksum::text_bytes(tag) + u).len() > 0);
        }
    }
    lemma_parts(a);
    lemma_parts(b);
    let (a3, b3) = (
        checksum::inherits_bytes(a.inherits) + none,
        checksum::inherits_bytes(b.inherits) + none,
    );
    let (a2, b2) = (checksum::calls_bytes(a.calls) + a3, checksum::calls_bytes(b.calls) + b3);
    let (a1, b1) = (
        checksum::references_bytes(a.references) + a2,
        checksum::references_bytes(b.references) + b2,
    );
    lemma_tails(a, "def"@);
    lemma_tails(b, "def"@);
    lemma_tails(a, "ref"@);
    lemma_tails(b, "ref"@);
    lemma_tails(a, "call"@);
    lemma_tails(b, "call"@);
    lemma_definitions_first(a.definitions, b.definitions, a1, b1);
    lemma_references_first(a.references, b.references, a2, b2);
    lemma_calls_first(a.calls, b.calls, a3, b3);
    lemma_inherits_first(a.inherits, b.inherits, none, none);
    assert(a.calls =~= b.calls);
    assert(a.inherits =~= b.inherits);
}

/// The bytes of symbols, list by list.
proof fn lemma_parts(f: FileSymbolsView)
    ensures
        checksum::symbols_bytes(f) == checksum::definitions_bytes(f.definitions) + (
        checksum::references_bytes(f.references) + (checksum::calls_bytes(f.calls) + (
        checksum::inherits_bytes(f.inherits) + Seq::<u8>::empty()))),
{
    let a = checksum::definitions_bytes(f.definitions);
    let b = checksum::references_bytes(f.references);
    let c = checksum::calls_bytes(f.calls);
    let d = checksum::inherits_bytes(f.inherits);
    assert(d + Seq::<u8>::empty() =~= d);
    lemma_assoc(a + b, c, d);
    lemma_assoc(a, b, c + d);
}

/// What follows a list does not begin like it.
proof fn lemma_tails(f: FileSymbolsView, tag: Seq<char>)
    requires
        forall|t: Seq<char>| #[trigger] begins_otherwise(Seq::<u8>::empty(), t),
        "def"@ != "ref"@,
        "def"@ != "call"@,
        "def"@ != "inherit"@,
        "ref"@ != "call"@,
        "ref"@ != "inherit"@,
        "call"@ != "inherit"@,
        tag == "def"@ || tag == "ref"@ || tag == "call"@,
    ensures
        ({
            let d = checksum::inherits_bytes(f.inherits) + Seq::<u8>::empty();
            let c = checksum::calls_bytes(f.calls) + d;
            &&& begins_otherwise(d, tag)
            &&& tag != "call"@ ==> begins_otherwise(c, tag)
            &&& tag == "def"@ ==> begins_otherwise(
                checksum::references_bytes(f.references) + c,
                tag,
            )
        }),
{
    let none = Seq::<u8>::empty();
    let d = checksum::inherits_bytes(f.inherits) + none;
    assert(begins_otherwise(none, tag));
    lemma_inherits_begin(f.inherits, none, tag);
    if tag != "call"@ {
        lemma_calls_begin(f.calls, d, tag);
        if tag == "def"@ {
            lemma_references_begin(f.references, checksum::calls_bytes(f.calls) + d, tag);
        }
    }
}

/// The number by which a product with the prime of the hash is undone.
spec fn unprime() -> int {
    0xce96_5057_aff6_957b
}

/// A product with the prime of the hash, within 64 bits, can be undone.
proof fn lemma_product_undone(a: int)
    requires
        0 <= a < 0x1_0000_0000_0000_0000,
    ensures
        ((a * 0x100_0000_01b3) % 0x1_0000_0000_0000_0000 * unprime()) % 0x1_0000_0000_0000_0000
            == a,
{
    let m = 0x1_0000_0000_0000_0000int;
    let p = 0x100_0000_01b3int;
    let q = 0xce_9650_590fint;
    vstd::arithmetic::div_mod::lemma_mul_mod_noop_left(a * p, unprime(), m);
    assert(p * unprime() == m * q + 1);
    assert((a * p) * unprime() == a * (p * unprime())) by (nonlinear_arith);
    assert(a * (m * q + 1) == m * (a * q) + a) by (nonlinear_arith);
    vstd::arithmetic::div_mod::lemma_mod_multiples_vanish(a * q, a, m);
}

/// A step of the hash loses nothing: with one byte, two hashes stay different, and from one hash,
/// two bytes give different ones.
pub proof fn law_hash_step_loses_nothing(g: u64, h: u64, a: u8, b: u8)
    requires
        checksum::fnv_step(g, a) == checksum::fnv_step(h, b),
    ensures
        a == b ==> g == h,
        g == h ==> a == b,
{
    let x = g ^ (a as u64);
    let y = h ^ (b as u64);
    lemma_product_undone(x as int);
    lemma_product_undone(y as int);
    assert(x == y);
    if a == b {
        assert(g == h) by (bit_vector)
            requires
                g ^ (a as u64) == h ^ (b as u64),
                a == b,
        ;
    }
    if g == h {
        assert(a == b) by (bit_vector)
            requires
                g ^ (a as u64) == h ^ (b as u64),
                g == h,
        ;
    }
}

/// Equal bytes behind different hashes keep them different.
proof fn lemma_hash_goes_on(g: u64, h: u64, s: Seq<u8>)
    requires
        checksum::fnv(g, s) == checksum::fnv(h, s),
    ensures
        g == h,
    decreases s.len(),
{
    if s.len() > 0 {
        let short = s.drop_last();
        law_hash_step_loses_nothing(
            checksum::fnv(g, short),
            checksum::fnv(h, short),
            s.last(),
            s.last(),
        );
        lemma_hash_goes_on(g, h, short);
    }
}

/// A content with one byte changed has another hash and another checksum.
pub proof fn law_a_changed_byte_changes_the_checksum(
    before: Seq<u8>,
    a: u8,
    b: u8,
    after: Seq<u8>,
)
    requires
        a != b,
    ensures
        checksum::checksum(before.push(a) + after) != checksum::checksum(before.push(b) + after),
{
    let o = checksum::FNV_OFFSET;
    checksum::lemma_fnv_concat(o, before.push(a), after);
    checksum::lemma_fnv_concat(o, before.push(b), after);
    assert(before.push(a).drop_last() =~= before);
    assert(before.push(b).drop_last() =~= before);
    let h = checksum::fnv(o, before);
    if checksum::checksum(before.push(a) + after) == checksum::checksum(before.push(b) + after) {
        law_checksums_tell_hash_and_length(before.push(a) + after, before.push(b) + after);
        lemma_hash_goes_on(checksum::fnv_step(h, a), checksum::fnv_step(h, b), after);
        law_hash_step_loses_nothing(h, h, a, b);
    }
}

/// How many numbers some hexadecimal digits can tell apart.
spec fn hex_numbers(n: nat) -> nat
    decreases n,
{
    if n == 0 {
        1
    } else {
        16 * hex_numbers((n - 1) as nat)
    }
}

/// The hexadecimal digits of a number determine it.
proof fn lemma_hex(a: nat, b: nat, n: nat)
    requires
        a < hex_numbers(n),
        b < hex_numbers(n),
        text::hex(a, n) == text::hex(b, n),
    ensures
        a == b,
    decreases n,
{
    if n > 0 {
        let m = (n - 1) as nat;
        let (x, y) = (text::hex(a, n), text::hex(b, n));
        assert(x.last() == text::digit_char((a % 16) as int));
        assert(y.last() == text::digit_char((b % 16) as int));
        assert(x.drop_last() =~= text::hex(a / 16, m));
        assert(y.drop_last() =~= text::hex(b / 16, m));
        lemma_hex(a / 16, b / 16, m);
    }
}

/// How many digits there are.
proof fn lemma_hex_length(a: nat, n: nat)
    ensures
        text::hex(a, n).len() == n,
    decreases n,
{
    if n > 0 {
        lemma_hex_length(a / 16, (n - 1) as nat);
    }
}

/// The decimal digits of a number determine it.
proof fn lemma_decimal(a: nat, b: nat)
    requires
        text::decimal(a) == text::decimal(b),
    ensures
        a == b,
    decreases a,
{
    let (x, y) = (text::decimal(a), text::decimal(b));
    lemma_decimal_length(a / 10);
    lemma_decimal_length(b / 10);
    if a < 10 {
        assert(x.len() == 1);
        assert(b < 10);
        assert(x[0] == y[0]);
    } else {
        assert(x.len() == text::decimal(a / 10).len() + 1);
        assert(b < 10 ==> y.len() == 1);
        assert(x.last() == text::digit_char((a % 10) as int));
        assert(y.last() == text::digit_char((b % 10) as int));
        assert(x.drop_last() =~= text::decimal(a / 10));
        assert(y.drop_last() =~= text::decimal(b / 10));
        lemma_decimal(a / 10, b / 10);
    }
}

/// A number has a digit.
proof fn lemma_decimal_length(a: nat)
    ensures
        text::decimal(a).len() > 0,
{
}

/// Two hashes have one fingerprint only where they are the same.
pub proof fn law_fingerprints_tell_hashes_apart(a: u64, b: u64)
    requires
        checksum::fingerprint(a) == checksum::fingerprint(b),
    ensures
        a == b,
{
    assert(hex_numbers(16) == 0x1_0000_0000_0000_0000) by {
        reveal_with_fuel(hex_numbers, 17);
    }
    lemma_hex(a as nat, b as nat, 16);
}

/// Two contents have one checksum only where they have the same hash and the same length.
pub proof fn law_checksums_tell_hash_and_length(a: Seq<u8>, b: Seq<u8>)
    requires
        checksum::checksum(a) == checksum::checksum(b),
    ensures
        checksum::fnv(checksum::FNV_OFFSET, a) == checksum::fnv(checksum::FNV_OFFSET, b),
        a.len() == b.len(),
{
    let f = checksum::fingerprint(checksum::fnv(checksum::FNV_OFFSET, a));
    let g = checksum::fingerprint(checksum::fnv(checksum::FNV_OFFSET, b));
    lemma_hex_length(checksum::fnv(checksum::FNV_OFFSET, a) as nat, 16);
    lemma_hex_length(checksum::fnv(checksum::FNV_OFFSET, b) as nat, 16);
    reveal_strlit(":");
    assert(":"@.len() == 1);
    assert(f =~= checksum::checksum(a).take(16));
    assert(g =~= checksum::checksum(b).take(16));
    assert(text::decimal(a.len()) =~= checksum::checksum(a).skip(17));
    assert(text::decimal(b.len()) =~= checksum::checksum(b).skip(17));
    law_fingerprints_tell_hashes_apart(
        checksum::fnv(checksum::FNV_OFFSET, a),
        checksum::fnv(checksum::FNV_OFFSET, b),
    );
    lemma_decimal(a.len(), b.len());
}

/// Whether two hashes of symbols do not collide: they are equal only where the bytes are.
pub open spec fn apart_in_hash(a: FileSymbolsView, b: FileSymbolsView) -> bool {
    checksum::fnv(checksum::FNV_OFFSET, checksum::symbols_bytes(a)) == checksum::fnv(
        checksum::FNV_OFFSET,
        checksum::symbols_bytes(b),
    ) ==> checksum::symbols_bytes(a) == checksum::symbols_bytes(b)
}

/// Two files whose hashes do not collide have one fingerprint only where they have the same
/// definitions, references, calls and inheritance edges.
pub proof fn law_fingerprints_tell_symbols_apart(a: FileSymbolsView, b: FileSymbolsView)
    requires
        apart_in_hash(a, b),
        checksum::symbols_checksum(a) == checksum::symbols_checksum(b),
    ensures
        a.definitions.len() == b.definitions.len(),
        forall|i: int|
            0 <= i < a.definitions.len() ==> same_definition(
                #[trigger] a.definitions[i],
                b.definitions[i],
            ),
        a.references.len() == b.references.len(),
        forall|i: int|
            0 <= i < a.references.len() ==> same_reference(
                #[trigger] a.references[i],
                b.references[i],
            ),
        a.calls == b.calls,
        a.inherits == b.inherits,
{
    law_fingerprints_tell_hashes_apart(
        checksum::fnv(checksum::FNV_OFFSET, checksum::symbols_bytes(a)),
        checksum::fnv(checksum::FNV_OFFSET, checksum::symbols_bytes(b)),
    );
    law_fingerprinted_bytes_tell_symbols_apart(a, b);
}

/// Whether what tables hold of a file are its symbols, in all but the texts of lines that are kept
/// with references.
pub open spec fn shows(c: contents_laws::Contents, f: FileSymbolsView) -> bool {
    let now = contents_laws::contents_of(f);
    &&& c.definitions == now.definitions
    &&& c.calls == now.calls
    &&& c.inherits == now.inherits
    &&& c.refs.len() == now.refs.len()
    &&& forall|i: int|
        0 <= i < c.refs.len() ==> (RefRowView { context: None, ..#[trigger] c.refs[i] })
            == (RefRowView { context: None, ..now.refs[i] })
}

/// The same symbols give the same rows.
proof fn lemma_shows(a: FileSymbolsView, b: FileSymbolsView)
    requires
        a.definitions.len() == b.definitions.len(),
        forall|i: int|
            0 <= i < a.definitions.len() ==> same_definition(
                #[trigger] a.definitions[i],
                b.definitions[i],
            ),
        a.references.len() == b.references.len(),
        forall|i: int|
            0 <= i < a.references.len() ==> same_reference(
                #[trigger] a.references[i],
                b.references[i],
            ),
        a.calls == b.calls,
        a.inherits == b.inherits,
    ensures
        shows(contents_laws::contents_of(a), b),
{
    let (x, y) = (contents_laws::contents_of(a), contents_laws::contents_of(b));
    assert forall|i: int| 0 <= i < x.definitions.len() implies #[trigger] x.definitions[i]
        == y.definitions[i] by {
        assert(same_definition(a.definitions[i], b.definitions[i]));
    }
    assert(x.definitions =~= y.definitions);
    assert forall|i: int| 0 <= i < x.refs.len() implies (RefRowView {
        context: None,
        ..#[trigger] x.refs[i]
    }) == (RefRowView { context: None, ..y.refs[i] }) by {
        assert(same_reference(a.references[i], b.references[i]));
    }
}

/// After a reindex the tables hold the symbols of the text that is there now. Let them hold, of a
/// file that is parsed again, the symbols of an earlier text under their fingerprint; unless the
/// hashes of the two collide, they hold the symbols of the new text afterwards, whether the file
/// was written again or kept because its fingerprint is the stored one.
pub proof fn law_reindex_shows_the_text_that_is_there(
    t: TablesView,
    roots: Seq<Seq<char>>,
    found: Seq<FoundFileView>,
    parsed: Seq<ParsedUpdateView>,
    k: int,
    was: FileSymbolsView,
)
    requires
        incremental_laws::sound(t),
        found.len() <= usize::MAX,
        reindex_laws::as_planned(t.files, found, parsed),
        incremental::update_fits(t, reindex::symbol_updates(t.files, parsed)),
        incremental_laws::holdable(t, reindex::symbol_updates(t.files, parsed)),
        0 <= k < parsed.len(),
        incremental::row_of(t.files, parsed[k].symbols.file) matches Some(r) ==> {
            &&& contents_laws::contents(t, parsed[k].symbols.file) == Some(
                contents_laws::contents_of(was),
            )
            &&& t.files[r].symbols_checksum matches Some(sum) ==> sum == checksum::symbols_checksum(
                was,
            )
        },
        apart_in_hash(was, parsed[k].symbols),
    ensures
        contents_laws::contents(
            incremental::updated(
                t,
                reindex::symbol_updates(t.files, parsed),
                reindex::checksum_updates(t.files, parsed),
                reindex::to_remove(t.files, roots, found),
            ),
            parsed[k].symbols.file,
        ) matches Some(c) && shows(c, parsed[k].symbols),
{
    let now = parsed[k].symbols;
    reindex_laws::law_reindex_shows_the_files(t, roots, found, parsed, now.file);
    if reindex::keeps_symbols(t.files, parsed[k]) {
        law_fingerprints_tell_symbols_apart(was, now);
        lemma_shows(was, now);
    }
}

/// The hash of a content is its 64-bit FNV-1a hash: from the offset basis on, each byte is taken in
/// by an exclusive or and then a product with the prime, of which the last 64 bits are kept.
pub proof fn law_contents_are_hashed_by_fnv_1a(hash: u64, bytes: Seq<u8>, byte: u8)
    ensures
        checksum::FNV_OFFSET == 14695981039346656037,
        checksum::fnv(hash, Seq::empty()) == hash,
        checksum::fnv(hash, bytes.push(byte)) == ((checksum::fnv(hash, bytes) ^ (byte as u64))
            as nat * 1099511628211) % 0x1_0000_0000_0000_0000,
{
    assert(bytes.push(byte).drop_last() =~= bytes);
}

/// The value of a digit, to the base of sixteen.
pub open spec fn digit_of(c: char) -> Option<nat> {
    if '0' <= c <= '9' {
        Some((c as u32 - '0' as u32) as nat)
    } else if 'a' <= c <= 'f' {
        Some((c as u32 - 'a' as u32 + 10) as nat)
    } else {
        None
    }
}

/// The number that digits spell, to the base of sixteen.
pub open spec fn spelled(s: Seq<char>) -> Option<nat>
    decreases s.len(),
{
    if s.len() == 0 {
        Some(0)
    } else {
        match (spelled(s.drop_last()), digit_of(s.last())) {
            (Some(high), Some(low)) => Some(high * 16 + low),
            _ => None,
        }
    }
}

/// The last digits of a number spell what is left of it.
proof fn lemma_spelled(n: nat, width: nat)
    requires
        n < hex_numbers(width),
    ensures
        spelled(text::hex(n, width)) == Some(n),
    decreases width,
{
    if width > 0 {
        let less = (width - 1) as nat;
        lemma_spelled(n / 16, less);
        let digit = text::digit_char((n % 16) as int);
        assert(text::hex(n, width).drop_last() =~= text::hex(n / 16, less));
        assert(text::hex(n, width).last() == digit);
        assert(digit_of(digit) == Some((n % 16) as nat));
        assert((n / 16) * 16 + n % 16 == n);
    }
}

/// A fingerprint spells its hash in sixteen digits to the base of sixteen, in lower case.
pub proof fn law_fingerprints_spell_their_hash(hash: u64)
    ensures
        checksum::fingerprint(hash).len() == 16,
        spelled(checksum::fingerprint(hash)) == Some(hash as nat),
{
    assert(hex_numbers(16) == 0x1_0000_0000_0000_0000) by {
        reveal_with_fuel(hex_numbers, 17);
    }
    lemma_hex_length(hash as nat, 16);
    lemma_spelled(hash as nat, 16);
}

/// A checksum is the fingerprint of the hash, a colon, and the length of the content in decimal.
pub proof fn law_checksums_spell_hash_and_length(bytes: Seq<u8>)
    ensures
        ({
            let s = checksum::checksum(bytes);
            &&& s.len() > 17
            &&& s.take(16) == checksum::fingerprint(checksum::fnv(checksum::FNV_OFFSET, bytes))
            &&& s[16] == ':'
            &&& text::number_upto(s.skip(17), bytes.len() as int) == Some(bytes.len() as int)
        }),
{
    let f = checksum::fingerprint(checksum::fnv(checksum::FNV_OFFSET, bytes));
    law_fingerprints_spell_their_hash(checksum::fnv(checksum::FNV_OFFSET, bytes));
    reveal_strlit(":");
    assert(":"@.len() == 1);
    assert(checksum::checksum(bytes).take(16) =~= f);
    assert(checksum::checksum(bytes).skip(17) =~= text::decimal(bytes.len()));
    argument_laws::law_numbers_are_read_as_they_are_written(bytes.len(), bytes.len() as int);
    lemma_decimal_length(bytes.len());
}

/// A saved file keeps the checksums that the index has of it. Where the index has none it gets that
/// of its content, as far as that is known, and the fingerprint of its own symbols.
pub proof fn law_saved_files_get_their_checksums(
    ix: IndexView,
    contents: Seq<Option<Seq<char>>>,
    i: int,
)
    requires
        0 <= i < ix.files.len(),
        contents.len() == ix.files.len(),
    ensures
        ({
            let f = ix.files[i];
            let row = save::saved(ix, contents).files[i];
            &&& save::saved(ix, contents).files.len() == ix.files.len()
            &&& row.path == f.path
            &&& row.language == f.language
            &&& f.checksum is Some ==> row.checksum == f.checksum
            &&& f.checksum is None ==> row.checksum == contents[i]
            &&& f.symbols_checksum is Some ==> row.symbols_checksum == f.symbols_checksum
            &&& f.symbols_checksum is None ==> row.symbols_checksum == Some(
                checksum::symbols_checksum(
                    FileSymbolsView {
                        definitions: ix.definitions.filter(
                            |d: DefinitionView| d.location.file == f.path,
                        ),
                        references: ix.references.filter(
                            |r: ReferenceView| r.location.file == f.path,
                        ),
                        calls: ix.calls.filter(|c: CallEdgeView| c.location.file == f.path),
                        inherits: ix.inherits.filter(
                            |e: InheritEdgeView| e.location.file == f.path,
                        ),
                        ..save::file_part(ix, f.path)
                    },
                ),
            )
        }),
{
    let path = ix.files[i].path;
    assert(save::definition_in(path) =~= (|d: DefinitionView| d.location.file == path));
    assert(save::reference_in(path) =~= (|r: ReferenceView| r.location.file == path));
    assert(save::call_in(path) =~= (|c: CallEdgeView| c.location.file == path));
    assert(save::inherit_in(path) =~= (|e: InheritEdgeView| e.location.file == path));
}

} // verus!
