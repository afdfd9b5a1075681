//! Content checksums and symbol fingerprints of source files.
use crate::text::{decimal_of, hex_of};
use crate::text;
use crate::types::{
    CallEdge, CallEdgeView, Definition, DefinitionView, FileSymbols, FileSymbolsView, InheritEdge,
    InheritEdgeView, Location, LocationView, Reference, ReferenceView,
};
use vstd::prelude::*;
use vstd::string::*;
use vstd::utf8::*;

verus! {

/// The start value of the 64-bit FNV-1a hash.
pub const FNV_OFFSET: u64 = 0xcbf29ce484222325;

/// The prime of the 64-bit FNV-1a hash.
pub const FNV_PRIME: u64 = 0x100000001b3;

/// One step of the FNV-1a hash.
pub open spec fn fnv_step(hash: u64, byte: u8) -> u64 {
    (hash ^ (byte as u64)).wrapping_mul(FNV_PRIME)
}

/// The FNV-1a hash of bytes, continued from a hash.
pub open spec fn fnv(hash: u64, bytes: Seq<u8>) -> u64
    decreases bytes.len(),
{
    if bytes.len() == 0 {
        hash
    } else {
        fnv_step(fnv(hash, bytes.drop_last()), bytes.last())
    }
}

/// Hashing one part and then another is hashing both together.
pub proof fn lemma_fnv_concat(hash: u64, a: Seq<u8>, b: Seq<u8>)
    ensures
        fnv(hash, a + b) == fnv(fnv(hash, a), b),
    decreases b.len(),
{
    if b.len() == 0 {
        assert(a + b =~= a);
    } else {
        lemma_fnv_concat(hash, a, b.drop_last());
        assert((a + b).drop_last() =~= a + b.drop_last());
    }
}

/// Hashes one byte.
fn hash_byte(hash: &mut u64, byte: u8)
    ensures
        *final(hash) == fnv(*old(hash), seq![byte]),
{
    *hash = (*hash ^ (byte as u64)).wrapping_mul(FNV_PRIME);
    proof {
        assert(seq![byte].drop_last() =~= Seq::<u8>::empty());
        reveal_with_fuel(fnv, 2);
    }
}

/// Hashes bytes in order.
fn hash_bytes(hash: &mut u64, bytes: &[u8])
    ensures
        *final(hash) == fnv(*old(hash), bytes@),
{
    let mut i: usize = 0;
    assert(bytes@.take(0) =~= Seq::<u8>::empty());
    while i < bytes.len()
        invariant
            i <= bytes@.len(),
            *hash == fnv(*old(hash), bytes@.take(i as int)),
        decreases bytes@.len() - i,
    {
        *hash = (*hash ^ (bytes[i] as u64)).wrapping_mul(FNV_PRIME);
        assert(bytes@.take(i + 1).drop_last() =~= bytes@.take(i as int));
        i = i + 1;
    }
    assert(bytes@.take(i as int) =~= bytes@);
}

/// The bytes of a text, closed by a byte that no text holds.
pub open spec fn text_bytes(s: Seq<char>) -> Seq<u8> {
    encode_utf8(s).push(0xff)
}

/// Hashes a text.
fn hash_str(hash: &mut u64, value: &str)
    ensures
        *final(hash) == fnv(*old(hash), text_bytes(value@)),
{
    hash_bytes(hash, value.as_bytes());
    hash_byte(hash, 0xff);
    proof {
        lemma_fnv_concat(*old(hash), encode_utf8(value@), seq![0xffu8]);
        assert(encode_utf8(value@) + seq![0xffu8] =~= text_bytes(value@));
    }
}

/// A truth value as a byte.
pub open spec fn bool_byte(b: bool) -> u8 {
    if b {
        1
    } else {
        0
    }
}

/// Hashes a truth value.
fn hash_bool(hash: &mut u64, value: bool)
    ensures
        *final(hash) == fnv(*old(hash), seq![bool_byte(value)]),
{
    hash_byte(
        hash,
        if value {
            1
        } else {
            0
        },
    );
}

/// The lowest `n` bytes of a number, least significant first.
pub open spec fn le_bytes(value: nat, n: nat) -> Seq<u8>
    decreases n,
{
    if n == 0 {
        Seq::empty()
    } else {
        seq![(value % 256) as u8] + le_bytes(value / 256, (n - 1) as nat)
    }
}

/// The bytes of a number that fills a machine word.
pub open spec fn word_bytes(value: usize) -> Seq<u8> {
    le_bytes(value as nat, (usize::BITS / 8) as nat)
}

/// Hashes a number.
fn hash_usize(hash: &mut u64, value: usize)
    ensures
        *final(hash) == fnv(*old(hash), word_bytes(value)),
{
    let mut rest: usize = value;
    let mut left: u32 = usize::BITS / 8;
    let ghost all = word_bytes(value);
    let ghost mut done = Seq::<u8>::empty();
    assert(done + all =~= all);
    while left > 0
        invariant
            all == word_bytes(value),
            all == done + le_bytes(rest as nat, left as nat),
            *hash == fnv(*old(hash), done),
        decreases left,
    {
        let byte = (rest % 256) as u8;
        let ghost tail = le_bytes(rest as nat / 256, (left - 1) as nat);
        hash_byte(hash, byte);
        proof {
            lemma_fnv_concat(*old(hash), done, seq![byte]);
            assert(done + (seq![byte] + tail) =~= done + seq![byte] + tail);
            done = done + seq![byte];
        }
        rest = rest / 256;
        left = left - 1;
    }
    assert(done + le_bytes(rest as nat, 0) =~= done);
}

/// The bytes of an optional text.
pub open spec fn optional_bytes(s: Option<Seq<char>>) -> Seq<u8> {
    match s {
        Some(s) => seq![bool_byte(true)] + text_bytes(s),
        None => seq![bool_byte(false)],
    }
}

/// Hashes an optional text.
fn hash_opt_str(hash: &mut u64, value: &Option<String>)
    ensures
        *final(hash) == fnv(*old(hash), optional_bytes(text::view_opt(*value))),
{
    match value {
        Some(s) => {
            hash_bool(hash, true);
            hash_str(hash, s.as_str());
            proof {
                lemma_fnv_concat(*old(hash), seq![bool_byte(true)], text_bytes(s@));
            }
        },
        None => {
            hash_bool(hash, false);
        },
    }
}

/// The bytes of a location.
pub open spec fn location_bytes(l: LocationView) -> Seq<u8> {
    text_bytes(l.file) + word_bytes(l.line) + word_bytes(l.column) + word_bytes(l.end_line)
        + word_bytes(l.end_column)
}

/// Hashes a location.
fn hash_location(hash: &mut u64, location: &Location)
    ensures
        *final(hash) == fnv(*old(hash), location_bytes(location@)),
{
    hash_str(hash, location.file.as_str());
    hash_usize(hash, location.line);
    hash_usize(hash, location.column);
    hash_usize(hash, location.end_line);
    hash_usize(hash, location.end_column);
    proof {
        let h = *old(hash);
        let a = text_bytes(location.file@);
        let b = word_bytes(location.line);
        let c = word_bytes(location.column);
        let d = word_bytes(location.end_line);
        let e = word_bytes(location.end_column);
        lemma_fnv_concat(h, a, b);
        lemma_fnv_concat(h, a + b, c);
        lemma_fnv_concat(h, a + b + c, d);
        lemma_fnv_concat(h, a + b + c + d, e);
    }
}

/// The bytes of a definition: all that is stored of it but its number.
pub open spec fn definition_bytes(d: DefinitionView) -> Seq<u8> {
    text_bytes("def"@) + text_bytes(d.name) + text_bytes(d.qualified_name) + text_bytes(
        d.kind.name(),
    ) + location_bytes(d.location) + optional_bytes(d.parent) + optional_bytes(d.signature)
        + text_bytes(d.visibility.name()) + seq![bool_byte(d.is_definition)] + optional_bytes(
        d.extra,
    )
}

/// Hashes a definition.
pub fn hash_definition(hash: &mut u64, d: &Definition)
    ensures
        *final(hash) == fnv(*old(hash), definition_bytes(d@)),
{
    hash_str(hash, "def");
    hash_str(hash, d.name.as_str());
    hash_str(hash, d.qualified_name.as_str());
    hash_str(hash, d.kind.as_str());
    hash_location(hash, &d.location);
    hash_opt_str(hash, &d.parent);
    hash_opt_str(hash, &d.signature);
    hash_str(hash, d.visibility.as_str());
    hash_bool(hash, d.is_definition);
    hash_opt_str(hash, &d.extra);
    proof {
        let h = *old(hash);
        let b0 = text_bytes("def"@);
        let b1 = b0 + text_bytes(d.name@);
        let b2 = b1 + text_bytes(d.qualified_name@);
        let b3 = b2 + text_bytes(d.kind.name());
        let b4 = b3 + location_bytes(d.location@);
        let b5 = b4 + optional_bytes(d@.parent);
        let b6 = b5 + optional_bytes(d@.signature);
        let b7 = b6 + text_bytes(d.visibility.name());
        let b8 = b7 + seq![bool_byte(d.is_definition)];
        lemma_fnv_concat(h, b0, text_bytes(d.name@));
        lemma_fnv_concat(h, b1, text_bytes(d.qualified_name@));
        lemma_fnv_concat(h, b2, text_bytes(d.kind.name()));
        lemma_fnv_concat(h, b3, location_bytes(d.location@));
        lemma_fnv_concat(h, b4, optional_bytes(d@.parent));
        lemma_fnv_concat(h, b5, optional_bytes(d@.signature));
        lemma_fnv_concat(h, b6, text_bytes(d.visibility.name()));
        lemma_fnv_concat(h, b7, seq![bool_byte(d.is_definition)]);
        lemma_fnv_concat(h, b8, optional_bytes(d@.extra));
    }
}

/// The bytes of a reference: neither its number, nor what it resolves to, nor its context.
pub open spec fn reference_bytes(r: ReferenceView) -> Seq<u8> {
    text_bytes("ref"@) + text_bytes(r.name) + text_bytes(r.kind.name()) + location_bytes(r.location)
}

/// Hashes a reference.
pub fn hash_reference(hash: &mut u64, r: &Reference)
    ensures
        *final(hash) == fnv(*old(hash), reference_bytes(r@)),
{
    hash_str(hash, "ref");
    hash_str(hash, r.name.as_str());
    hash_str(hash, r.kind.as_str());
    hash_location(hash, &r.location);
    proof {
        let h = *old(hash);
        let b0 = text_bytes("ref"@);
        let b1 = b0 + text_bytes(r.name@);
        let b2 = b1 + text_bytes(r.kind.name());
        lemma_fnv_concat(h, b0, text_bytes(r.name@));
        lemma_fnv_concat(h, b1, text_bytes(r.kind.name()));
        lemma_fnv_concat(h, b2, location_bytes(r.location@));
    }
}

/// The bytes of a call.
pub open spec fn call_bytes(c: CallEdgeView) -> Seq<u8> {
    text_bytes("call"@) + text_bytes(c.caller_name) + text_bytes(c.callee_name) + location_bytes(
        c.location,
    )
}

/// Hashes a call.
pub fn hash_call(hash: &mut u64, c: &CallEdge)
    ensures
        *final(hash) == fnv(*old(hash), call_bytes(c@)),
{
    hash_str(hash, "call");
    hash_str(hash, c.caller_name.as_str());
    hash_str(hash, c.callee_name.as_str());
    hash_location(hash, &c.location);
    proof {
        let h = *old(hash);
        let b0 = text_bytes("call"@);
        let b1 = b0 + text_bytes(c.caller_name@);
        let b2 = b1 + text_bytes(c.callee_name@);
        lemma_fnv_concat(h, b0, text_bytes(c.caller_name@));
        lemma_fnv_concat(h, b1, text_bytes(c.callee_name@));
        lemma_fnv_concat(h, b2, location_bytes(c.location@));
    }
}

/// The bytes of an inheritance edge.
pub open spec fn inherit_bytes(e: InheritEdgeView) -> Seq<u8> {
    text_bytes("inherit"@) + text_bytes(e.derived_name) + text_bytes(e.base_name) + location_bytes(
        e.location,
    ) + text_bytes(e.access.name()) + seq![bool_byte(e.is_virtual)]
}

/// Hashes an inheritance edge.
pub fn hash_inherit(hash: &mut u64, e: &InheritEdge)
    ensures
        *final(hash) == fnv(*old(hash), inherit_bytes(e@)),
{
    hash_str(hash, "inherit");
    hash_str(hash, e.derived_name.as_str());
    hash_str(hash, e.base_name.as_str());
    hash_location(hash, &e.location);
    hash_str(hash, e.access.as_str());
    hash_bool(hash, e.is_virtual);
    proof {
        let h = *old(hash);
        let b0 = text_bytes("inherit"@);
        let b1 = b0 + text_bytes(e.derived_name@);
        let b2 = b1 + text_bytes(e.base_name@);
        let b3 = b2 + location_bytes(e.location@);
        let b4 = b3 + text_bytes(e.access.name());
        lemma_fnv_concat(h, b0, text_bytes(e.derived_name@));
        lemma_fnv_concat(h, b1, text_bytes(e.base_name@));
        lemma_fnv_concat(h, b2, location_bytes(e.location@));
        lemma_fnv_concat(h, b3, text_bytes(e.access.name()));
        lemma_fnv_concat(h, b4, seq![bool_byte(e.is_virtual)]);
    }
}

/// The bytes of definitions in order.
pub open spec fn definitions_bytes(s: Seq<DefinitionView>) -> Seq<u8>
    decreases s.len(),
{
    if s.len() == 0 {
        Seq::empty()
    } else {
        definitions_bytes(s.drop_last()) + definition_bytes(s.last())
    }
}

/// The bytes of references in order.
pub open spec fn references_bytes(s: Seq<ReferenceView>) -> Seq<u8>
    decreases s.len(),
{
    if s.len() == 0 {
        Seq::empty()
    } else {
        references_bytes(s.drop_last()) + reference_bytes(s.last())
    }
}

/// The bytes of calls in order.
pub open spec fn calls_bytes(s: Seq<CallEdgeView>) -> Seq<u8>
    decreases s.len(),
{
    if s.len() == 0 {
        Seq::empty()
    } else {
        calls_bytes(s.drop_last()) + call_bytes(s.last())
    }
}

/// The bytes of inheritance edges in order.
pub open spec fn inherits_bytes(s: Seq<InheritEdgeView>) -> Seq<u8>
    decreases s.len(),
{
    if s.len() == 0 {
        Seq::empty()
    } else {
        inherits_bytes(s.drop_last()) + inherit_bytes(s.last())
    }
}

/// The bytes of all symbols of a file.
pub open spec fn symbols_bytes(f: FileSymbolsView) -> Seq<u8> {
    definitions_bytes(f.definitions) + references_bytes(f.references) + calls_bytes(f.calls)
        + inherits_bytes(f.inherits)
}

/// A hash as text.
pub open spec fn fingerprint(hash: u64) -> Seq<char> {
    text::hex(hash as nat, 16)
}

/// A hash as text.
pub fn fingerprint_of(hash: u64) -> (r: String)
    ensures
        r@ == fingerprint(hash),
{
    hex_of(hash, 16)
}

/// The checksum of a content: its hash and its length.
pub open spec fn checksum(bytes: Seq<u8>) -> Seq<char> {
    fingerprint(fnv(FNV_OFFSET, bytes)) + ":"@ + text::decimal(bytes.len())
}

/// The checksum of a content.
pub fn checksum_bytes(bytes: &[u8]) -> (r: String)
    ensures
        r@ == checksum(bytes@),
{
    let mut hash: u64 = FNV_OFFSET;
    hash_bytes(&mut hash, bytes);
    let mut r = fingerprint_of(hash);
    r.append(":");
    r.append(decimal_of(bytes.len() as u128).as_str());
    r
}

/// The fingerprint of the symbols of a file.
pub open spec fn symbols_checksum(f: FileSymbolsView) -> Seq<char> {
    fingerprint(fnv(FNV_OFFSET, symbols_bytes(f)))
}

/// The fingerprint of the symbols of a file.
pub fn file_symbols_checksum(symbols: &FileSymbols) -> (r: String)
    ensures
        r@ == symbols_checksum(symbols@),
{
    let mut hash: u64 = FNV_OFFSET;
    hash_file_symbols(&mut hash, symbols);
    fingerprint_of(hash)
}

/// Hashes all symbols of a file.
fn hash_file_symbols(hash: &mut u64, symbols: &FileSymbols)
    ensures
        *final(hash) == fnv(*old(hash), symbols_bytes(symbols@)),
{
    let ghost start = *hash;
    let ghost f = symbols@;
    let mut i: usize = 0;
    while i < symbols.definitions.len()
        invariant
            f == symbols@,
            i <= symbols.definitions@.len(),
            *hash == fnv(start, definitions_bytes(f.definitions.take(i as int))),
        decreases symbols.definitions@.len() - i,
    {
        hash_definition(hash, &symbols.definitions[i]);
        proof {
            let shorter = f.definitions.take(i as int);
            assert(f.definitions.take(i + 1).drop_last() =~= shorter);
            lemma_fnv_concat(
                start,
                definitions_bytes(shorter),
                definition_bytes(f.definitions[i as int]),
            );
        }
        i = i + 1;
    }
    assert(f.definitions.take(i as int) =~= f.definitions);
    let ghost after_definitions = *hash;
    i = 0;
    while i < symbols.references.len()
        invariant
            f == symbols@,
            i <= symbols.references@.len(),
            *hash == fnv(after_definitions, references_bytes(f.references.take(i as int))),
        decreases symbols.references@.len() - i,
    {
        hash_reference(hash, &symbols.references[i]);
        proof {
            let shorter = f.references.take(i as int);
            assert(f.references.take(i + 1).drop_last() =~= shorter);
            lemma_fnv_concat(
                after_definitions,
                references_bytes(shorter),
                reference_bytes(f.references[i as int]),
            );
        }
        i = i + 1;
    }
    assert(f.references.take(i as int) =~= f.references);
    let ghost after_references = *hash;
    i = 0;
    while i < symbols.calls.len()
        invariant
            f == symbols@,
            i <= symbols.calls@.len(),
            *hash == fnv(after_references, calls_bytes(f.calls.take(i as int))),
        decreases symbols.calls@.len() - i,
    {
        hash_call(hash, &symbols.calls[i]);
        proof {
            let shorter = f.calls.take(i as int);
            assert(f.calls.take(i + 1).drop_last() =~= shorter);
            lemma_fnv_concat(
                after_references,
                calls_bytes(shorter),
                call_bytes(f.calls[i as int]),
            );
        }
        i = i + 1;
    }
    assert(f.calls.take(i as int) =~= f.calls);
    let ghost after_calls = *hash;
    i = 0;
    while i < symbols.inherits.len()
        invariant
            f == symbols@,
            i <= symbols.inherits@.len(),
            *hash == fnv(after_calls, inherits_bytes(f.inherits.take(i as int))),
        decreases symbols.inherits@.len() - i,
    {
        hash_inherit(hash, &symbols.inherits[i]);
        proof {
            let shorter = f.inherits.take(i as int);
            assert(f.inherits.take(i + 1).drop_last() =~= shorter);
            lemma_fnv_concat(
                after_calls,
                inherits_bytes(shorter),
                inherit_bytes(f.inherits[i as int]),
            );
        }
        i = i + 1;
    }
    proof {
        assert(f.inherits.take(i as int) =~= f.inherits);
        let a = definitions_bytes(f.definitions);
        let b = references_bytes(f.references);
        let c = calls_bytes(f.calls);
        let d = inherits_bytes(f.inherits);
        lemma_fnv_concat(start, a, b);
        lemma_fnv_concat(start, a + b, c);
        lemma_fnv_concat(start, a + b + c, d);
    }
}

} // verus!
