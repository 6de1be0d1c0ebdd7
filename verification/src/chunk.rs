//! The recursion that the Lua 5.1 to 5.4 prototype decoders share.
//!
//! A prototype is its scalar fields, the sequences before its nested
//! prototypes, the nested prototypes, and the sequences after them. The
//! dialects differ in the parts and agree in how they nest.

use crate::error::{
    agrees, cut_law, fail, in_context, with_context, Context, DecodeError, ErrorKind, ErrorView,
    Parsed,
};
use crate::lua51;
use crate::lua52;
use crate::lua53;
use crate::lua54;
use crate::model::{ChunkView, LuaChunk, LuaHeader};
use crate::number::{lemma_lua_int_cut, lua_int, spec_lua_int};
use crate::repeat::{lemma_deep_empty, lemma_deep_push};
use vstd::prelude::*;

verus! {

/// The dialects that share the recursion.
#[derive(Clone, Copy, Debug, PartialEq, Eq, Structural)]
pub enum Dialect {
    Lua51,
    Lua52,
    Lua53,
    Lua54,
}

/// The scalar fields of the prototype at `pos`.
pub open spec fn spec_head(d: Dialect, h: LuaHeader, s: Seq<u8>, pos: int) -> Parsed<ChunkView> {
    match d {
        Dialect::Lua51 => lua51::spec_chunk_head(h, s, pos),
        Dialect::Lua52 => lua52::spec_chunk_head(h, s, pos),
        Dialect::Lua53 => lua53::spec_chunk_head(h, s, pos),
        Dialect::Lua54 => lua54::spec_chunk_head(s, pos),
    }
}

/// `base` with the sequences that precede the nested prototypes.
pub open spec fn spec_front(d: Dialect, h: LuaHeader, s: Seq<u8>, pos: int, base: ChunkView)
    -> Parsed<ChunkView> {
    match d {
        Dialect::Lua51 => lua51::spec_chunk_front(h, s, pos, base),
        Dialect::Lua52 => lua51::spec_chunk_front(h, s, pos, base),
        Dialect::Lua53 => lua53::spec_chunk_front(h, s, pos, base),
        Dialect::Lua54 => lua54::spec_chunk_front(h, s, pos, base),
    }
}

/// `base` with the sequences that follow the nested prototypes.
pub open spec fn spec_back(d: Dialect, h: LuaHeader, s: Seq<u8>, pos: int, base: ChunkView)
    -> Parsed<ChunkView> {
    match d {
        Dialect::Lua51 => lua51::spec_chunk_back(h, s, pos, base),
        Dialect::Lua52 => lua52::spec_chunk_back(h, s, pos, base),
        Dialect::Lua53 => lua53::spec_chunk_back(h, s, pos, base),
        Dialect::Lua54 => lua54::spec_chunk_back(s, pos, base),
    }
}

/// The count that precedes the nested prototypes.
pub open spec fn spec_count(d: Dialect, h: LuaHeader, s: Seq<u8>, pos: int) -> Parsed<u64> {
    match d {
        Dialect::Lua51 => spec_lua_int(h, s, pos),
        Dialect::Lua52 => spec_lua_int(h, s, pos),
        Dialect::Lua53 => spec_lua_int(h, s, pos),
        Dialect::Lua54 => lua54::spec_lua_int(s, pos),
    }
}

/// The prototype at `pos`, nested at most `depth` levels deep.
///
/// With no level left the prototype is a `DepthExceeded` at `pos`. All that
/// follows the scalar fields is decoded within the construct `Chunk`.
pub open spec fn spec_chunk(d: Dialect, h: LuaHeader, s: Seq<u8>, pos: int, depth: nat) -> Parsed<
    ChunkView,
>
    decreases depth, 0nat, 0nat,
{
    if depth == 0 {
        fail(pos, ErrorKind::DepthExceeded)
    } else {
        match spec_head(d, h, s, pos) {
            Err(e) => Err(e),
            Ok((head, p1)) => in_context(
                match spec_front(d, h, s, p1, head) {
                    Err(e) => Err(e),
                    Ok((front, p2)) => match spec_prototypes(d, h, s, p2, (depth - 1) as nat) {
                        Err(e) => Err(e),
                        Ok((prototypes, p3)) => spec_back(
                            d,
                            h,
                            s,
                            p3,
                            ChunkView { prototypes, ..front },
                        ),
                    },
                },
                Context::Chunk,
            ),
        }
    }
}

/// The counted sequence of nested prototypes at `pos`, each nested at most
/// `depth` levels deep.
pub open spec fn spec_prototypes(d: Dialect, h: LuaHeader, s: Seq<u8>, pos: int, depth: nat)
    -> Parsed<Seq<ChunkView>>
    decreases depth, 2nat, 0nat,
{
    in_context(
        match spec_count(d, h, s, pos) {
            Err(e) => Err(e),
            Ok((n, at)) => spec_chunks(d, h, s, at, n as nat, depth),
        },
        Context::CountPrototypes,
    )
}

/// `n` prototypes in a row, from `pos` on.
pub open spec fn spec_chunks(d: Dialect, h: LuaHeader, s: Seq<u8>, pos: int, n: nat, depth: nat)
    -> Parsed<Seq<ChunkView>>
    decreases depth, 1nat, n,
{
    if n == 0 {
        Ok((Seq::empty(), pos))
    } else {
        match spec_chunks(d, h, s, pos, (n - 1) as nat, depth) {
            Err(e) => Err(e),
            Ok((items, at)) => match spec_chunk(d, h, s, at, depth) {
                Err(e) => Err(e),
                Ok((item, next)) => Ok((items.push(item), next)),
            },
        }
    }
}

/// Once a sequence of prototypes has failed, asking for more changes
/// nothing.
pub proof fn lemma_chunks_failed(
    d: Dialect,
    h: LuaHeader,
    s: Seq<u8>,
    pos: int,
    i: nat,
    n: nat,
    depth: nat,
)
    requires
        i <= n,
        spec_chunks(d, h, s, pos, i, depth) is Err,
    ensures
        spec_chunks(d, h, s, pos, n, depth) == spec_chunks(d, h, s, pos, i, depth),
    decreases n,
{
    if i < n {
        lemma_chunks_failed(d, h, s, pos, i, (n - 1) as nat, depth);
    }
}

/// Reads the scalar fields of a prototype.
fn head(d: Dialect, header: &LuaHeader, input: &[u8], pos: usize) -> (r: Result<
    (LuaChunk, usize),
    DecodeError,
>)
    ensures
        agrees(r, spec_head(d, *header, input@, pos as int)),
{
    match d {
        Dialect::Lua51 => lua51::chunk_head(header, input, pos),
        Dialect::Lua52 => lua52::chunk_head(header, input, pos),
        Dialect::Lua53 => lua53::chunk_head(header, input, pos),
        Dialect::Lua54 => lua54::chunk_head(input, pos),
    }
}

/// Reads the sequences that precede the nested prototypes into `base`.
fn front(d: Dialect, header: &LuaHeader, input: &[u8], pos: usize, base: LuaChunk) -> (r: Result<
    (LuaChunk, usize),
    DecodeError,
>)
    ensures
        agrees(r, spec_front(d, *header, input@, pos as int, base.deep_view())),
{
    match d {
        Dialect::Lua51 => lua51::chunk_front(header, input, pos, base),
        Dialect::Lua52 => lua51::chunk_front(header, input, pos, base),
        Dialect::Lua53 => lua53::chunk_front(header, input, pos, base),
        Dialect::Lua54 => lua54::chunk_front(header, input, pos, base),
    }
}

/// Reads the sequences that follow the nested prototypes into `base`.
fn back(d: Dialect, header: &LuaHeader, input: &[u8], pos: usize, base: LuaChunk) -> (r: Result<
    (LuaChunk, usize),
    DecodeError,
>)
    ensures
        agrees(r, spec_back(d, *header, input@, pos as int, base.deep_view())),
{
    match d {
        Dialect::Lua51 => lua51::chunk_back(header, input, pos, base),
        Dialect::Lua52 => lua52::chunk_back(header, input, pos, base),
        Dialect::Lua53 => lua53::chunk_back(header, input, pos, base),
        Dialect::Lua54 => lua54::chunk_back(input, pos, base),
    }
}

/// Reads the count that precedes the nested prototypes.
fn count(d: Dialect, header: &LuaHeader, input: &[u8], pos: usize) -> (r: Result<
    (u64, usize),
    DecodeError,
>)
    ensures
        agrees(r, spec_count(d, *header, input@, pos as int)),
{
    match d {
        Dialect::Lua51 => lua_int(header, input, pos),
        Dialect::Lua52 => lua_int(header, input, pos),
        Dialect::Lua53 => lua_int(header, input, pos),
        Dialect::Lua54 => lua54::lua_int(input, pos),
    }
}

/// Puts the nested prototypes into `base`.
pub fn with_prototypes(base: LuaChunk, prototypes: Vec<LuaChunk>) -> (chunk: LuaChunk)
    ensures
        chunk.deep_view() == (ChunkView { prototypes: prototypes.deep_view(), ..base.deep_view() }),
{
    proof {
        reveal(LuaChunk::model);
    }
    let mut chunk = base;
    chunk.prototypes = prototypes;
    assert(chunk.model().prototypes =~= prototypes.deep_view());
    chunk
}

/// Reads a prototype of the dialect `d` that may nest `depth` levels deep.
pub fn chunk(d: Dialect, header: &LuaHeader, input: &[u8], pos: usize, depth: usize) -> (r: Result<
    (LuaChunk, usize),
    DecodeError,
>)
    ensures
        agrees(r, spec_chunk(d, *header, input@, pos as int, depth as nat)),
    decreases depth, 0nat, 0nat,
{
    if depth == 0 {
        return Err(DecodeError::new(pos, ErrorKind::DepthExceeded));
    }
    let (scalars, p1) = head(d, header, input, pos)?;
    let (before, p2) = match front(d, header, input, p1, scalars) {
        Ok(v) => v,
        Err(e) => { return Err(e.within(Context::Chunk)); },
    };
    let (nested, p3) = match prototypes(d, header, input, p2, depth - 1) {
        Ok(v) => v,
        Err(e) => { return Err(e.within(Context::Chunk)); },
    };
    with_context(back(d, header, input, p3, with_prototypes(before, nested)), Context::Chunk)
}

/// Reads the counted sequence of nested prototypes.
fn prototypes(d: Dialect, header: &LuaHeader, input: &[u8], pos: usize, depth: usize) -> (r:
    Result<(Vec<LuaChunk>, usize), DecodeError>)
    ensures
        agrees(r, spec_prototypes(d, *header, input@, pos as int, depth as nat)),
    decreases depth, 2nat, 0nat,
{
    let (n, start) = match count(d, header, input, pos) {
        Ok(v) => v,
        Err(e) => { return Err(e.within(Context::CountPrototypes)); },
    };
    let mut items: Vec<LuaChunk> = Vec::new();
    let mut at: usize = start;
    let mut i: u64 = 0;
    proof {
        lemma_deep_empty(items);
    }
    while i < n
        invariant
            i <= n,
            spec_count(d, *header, input@, pos as int) == Ok::<(u64, int), ErrorView>(
                (n, start as int),
            ),
            spec_chunks(d, *header, input@, start as int, i as nat, depth as nat) == Ok::<
                (Seq<ChunkView>, int),
                ErrorView,
            >((items.deep_view(), at as int)),
        decreases n - i,
    {
        match chunk(d, header, input, at, depth) {
            Err(e) => {
                proof {
                    lemma_chunks_failed(
                        d,
                        *header,
                        input@,
                        start as int,
                        (i + 1) as nat,
                        n as nat,
                        depth as nat,
                    );
                }
                return Err(e.within(Context::CountPrototypes));
            },
            Ok((item, next)) => {
                let ghost before = items;
                items.push(item);
                proof {
                    lemma_deep_push(before, items, item);
                }
                at = next;
                i += 1;
            },
        }
    }
    Ok((items, at))
}

/// The scalar fields depend on the bytes they are read from and on no
/// others.
pub proof fn lemma_head_cut(d: Dialect, h: LuaHeader, s: Seq<u8>, pos: int, k: int)
    requires
        0 <= pos <= k <= s.len(),
    ensures
        cut_law(spec_head(d, h, s, pos), spec_head(d, h, s.take(k), pos), pos, k, s.len() as int),
{
    match d {
        Dialect::Lua51 => lua51::lemma_chunk_head_cut(h, s, pos, k),
        Dialect::Lua52 => lua52::lemma_chunk_head_cut(h, s, pos, k),
        Dialect::Lua53 => lua53::lemma_chunk_head_cut(h, s, pos, k),
        Dialect::Lua54 => lua54::lemma_chunk_head_cut(s, pos, k),
    }
}

/// The sequences before the nested prototypes depend on the bytes they are
/// read from and on no others.
pub proof fn lemma_front_cut(
    d: Dialect,
    h: LuaHeader,
    s: Seq<u8>,
    pos: int,
    base: ChunkView,
    k: int,
)
    requires
        0 <= pos <= s.len(),
        0 <= k <= s.len(),
    ensures
        pos <= k ==> cut_law(
            spec_front(d, h, s, pos, base),
            spec_front(d, h, s.take(k), pos, base),
            pos,
            k,
            s.len() as int,
        ),
        spec_front(d, h, s, pos, base) is Ok ==> pos <= spec_front(d, h, s, pos, base)->Ok_0.1
            <= s.len(),
{
    match d {
        Dialect::Lua51 => lua51::lemma_chunk_front_cut(h, s, pos, base, k),
        Dialect::Lua52 => lua51::lemma_chunk_front_cut(h, s, pos, base, k),
        Dialect::Lua53 => lua53::lemma_chunk_front_cut(h, s, pos, base, k),
        Dialect::Lua54 => lua54::lemma_chunk_front_cut(h, s, pos, base, k),
    }
}

/// The sequences after the nested prototypes depend on the bytes they are
/// read from and on no others.
pub proof fn lemma_back_cut(d: Dialect, h: LuaHeader, s: Seq<u8>, pos: int, base: ChunkView, k: int)
    requires
        0 <= pos <= s.len(),
        0 <= k <= s.len(),
    ensures
        pos <= k ==> cut_law(
            spec_back(d, h, s, pos, base),
            spec_back(d, h, s.take(k), pos, base),
            pos,
            k,
            s.len() as int,
        ),
        spec_back(d, h, s, pos, base) is Ok ==> pos <= spec_back(d, h, s, pos, base)->Ok_0.1
            <= s.len(),
{
    match d {
        Dialect::Lua51 => lua51::lemma_chunk_back_cut(h, s, pos, base, k),
        Dialect::Lua52 => lua52::lemma_chunk_back_cut(h, s, pos, base, k),
        Dialect::Lua53 => lua53::lemma_chunk_back_cut(h, s, pos, base, k),
        Dialect::Lua54 => lua54::lemma_chunk_back_cut(s, pos, base, k),
    }
}

/// The count before the nested prototypes depends on its bytes alone.
pub proof fn lemma_count_cut(d: Dialect, h: LuaHeader, s: Seq<u8>, pos: int, k: int)
    requires
        0 <= pos <= k <= s.len(),
    ensures
        cut_law(spec_count(d, h, s, pos), spec_count(d, h, s.take(k), pos), pos, k, s.len() as int),
{
    match d {
        Dialect::Lua51 => lemma_lua_int_cut(h, s, pos, k),
        Dialect::Lua52 => lemma_lua_int_cut(h, s, pos, k),
        Dialect::Lua53 => lemma_lua_int_cut(h, s, pos, k),
        Dialect::Lua54 => lua54::lemma_lua_int_cut(s, pos, k),
    }
}

/// A prototype depends on the bytes it is read from and on no others.
pub proof fn lemma_chunk_cut(d: Dialect, h: LuaHeader, s: Seq<u8>, pos: int, depth: nat, k: int)
    requires
        0 <= pos <= s.len(),
        0 <= k <= s.len(),
    ensures
        pos <= k ==> cut_law(
            spec_chunk(d, h, s, pos, depth),
            spec_chunk(d, h, s.take(k), pos, depth),
            pos,
            k,
            s.len() as int,
        ),
        spec_chunk(d, h, s, pos, depth) is Ok ==> pos <= spec_chunk(d, h, s, pos, depth)->Ok_0.1
            <= s.len(),
    decreases depth, 0nat, 0nat,
{
    if depth > 0 {
        let n = s.len() as int;
        lemma_head_cut(d, h, s, pos, if pos <= k { k } else { n });
        if let Ok((head, p1)) = spec_head(d, h, s, pos) {
            lemma_front_cut(d, h, s, p1, head, k);
            if let Ok((front, p2)) = spec_front(d, h, s, p1, head) {
                lemma_prototypes_cut(d, h, s, p2, (depth - 1) as nat, k);
                if let Ok((prototypes, p3)) = spec_prototypes(d, h, s, p2, (depth - 1) as nat) {
                    lemma_back_cut(d, h, s, p3, ChunkView { prototypes, ..front }, k);
                }
            }
        }
    }
}

/// A counted sequence of prototypes depends on the bytes it is read from
/// and on no others.
pub proof fn lemma_prototypes_cut(
    d: Dialect,
    h: LuaHeader,
    s: Seq<u8>,
    pos: int,
    depth: nat,
    k: int,
)
    requires
        0 <= pos <= s.len(),
        0 <= k <= s.len(),
    ensures
        pos <= k ==> cut_law(
            spec_prototypes(d, h, s, pos, depth),
            spec_prototypes(d, h, s.take(k), pos, depth),
            pos,
            k,
            s.len() as int,
        ),
        spec_prototypes(d, h, s, pos, depth) is Ok ==> pos <= spec_prototypes(
            d,
            h,
            s,
            pos,
            depth,
        )->Ok_0.1 <= s.len(),
    decreases depth, 2nat, 0nat,
{
    let n = s.len() as int;
    lemma_count_cut(d, h, s, pos, if pos <= k { k } else { n });
    if let Ok((count, at)) = spec_count(d, h, s, pos) {
        lemma_chunks_cut(d, h, s, at, count as nat, depth, k);
    }
}

/// Prototypes in a row depend on the bytes they are read from and on no
/// others.
pub proof fn lemma_chunks_cut(
    d: Dialect,
    h: LuaHeader,
    s: Seq<u8>,
    pos: int,
    n: nat,
    depth: nat,
    k: int,
)
    requires
        0 <= pos <= s.len(),
        0 <= k <= s.len(),
    ensures
        pos <= k ==> cut_law(
            spec_chunks(d, h, s, pos, n, depth),
            spec_chunks(d, h, s.take(k), pos, n, depth),
            pos,
            k,
            s.len() as int,
        ),
        spec_chunks(d, h, s, pos, n, depth) is Ok ==> pos <= spec_chunks(
            d,
            h,
            s,
            pos,
            n,
            depth,
        )->Ok_0.1 <= s.len(),
    decreases depth, 1nat, n,
{
    if n > 0 {
        lemma_chunks_cut(d, h, s, pos, (n - 1) as nat, depth, k);
        if let Ok((items, at)) = spec_chunks(d, h, s, pos, (n - 1) as nat, depth) {
            lemma_chunk_cut(d, h, s, at, depth, k);
        }
    }
}

/// The prototypes of `c` nest at most `d` levels deep, `c` itself being
/// the first level.
pub open spec fn nests_within(c: ChunkView, d: nat) -> bool
    decreases d,
{
    d > 0 && forall|i: int|
        0 <= i < c.prototypes.len() ==> nests_within(#[trigger] c.prototypes[i], (d - 1) as nat)
}

/// The parts of a prototype other than its nested prototypes leave those
/// as they are.
pub proof fn lemma_parts_keep_prototypes(
    d: Dialect,
    h: LuaHeader,
    s: Seq<u8>,
    pos: int,
    base: ChunkView,
)
    ensures
        spec_head(d, h, s, pos) is Ok ==> spec_head(d, h, s, pos)->Ok_0.0.prototypes == Seq::<
            ChunkView,
        >::empty(),
        spec_front(d, h, s, pos, base) is Ok ==> spec_front(d, h, s, pos, base)->Ok_0.0.prototypes
            == base.prototypes,
        spec_back(d, h, s, pos, base) is Ok ==> spec_back(d, h, s, pos, base)->Ok_0.0.prototypes
            == base.prototypes,
{
    lua51::lemma_parts_keep_prototypes(h, s, pos, base);
    lua52::lemma_parts_keep_prototypes(h, s, pos, base);
    lua53::lemma_parts_keep_prototypes(h, s, pos, base);
    lua54::lemma_parts_keep_prototypes(h, s, pos, base);
}

/// A prototype that is decoded with the ceiling `depth` nests at most
/// `depth` levels deep.
pub proof fn lemma_chunk_depth(d: Dialect, h: LuaHeader, s: Seq<u8>, pos: int, depth: nat)
    requires
        spec_chunk(d, h, s, pos, depth) is Ok,
    ensures
        nests_within(spec_chunk(d, h, s, pos, depth)->Ok_0.0, depth),
    decreases depth, 0nat, 0nat,
{
    let (head, p1) = spec_head(d, h, s, pos)->Ok_0;
    let (front, p2) = spec_front(d, h, s, p1, head)->Ok_0;
    let (prototypes, p3) = spec_prototypes(d, h, s, p2, (depth - 1) as nat)->Ok_0;
    let base = ChunkView { prototypes, ..front };
    lemma_parts_keep_prototypes(d, h, s, p3, base);
    let (count, at) = spec_count(d, h, s, p2)->Ok_0;
    lemma_chunks_depth(d, h, s, at, count as nat, (depth - 1) as nat);
}

/// Prototypes that are decoded in a row with the ceiling `depth` nest at
/// most `depth` levels deep each.
pub proof fn lemma_chunks_depth(
    d: Dialect,
    h: LuaHeader,
    s: Seq<u8>,
    pos: int,
    n: nat,
    depth: nat,
)
    requires
        spec_chunks(d, h, s, pos, n, depth) is Ok,
    ensures
        spec_chunks(d, h, s, pos, n, depth)->Ok_0.0.len() == n,
        forall|i: int|
            0 <= i < n ==> nests_within(
                #[trigger] spec_chunks(d, h, s, pos, n, depth)->Ok_0.0[i],
                depth,
            ),
    decreases depth, 1nat, n,
{
    if n > 0 {
        lemma_chunks_depth(d, h, s, pos, (n - 1) as nat, depth);
        let (items, at) = spec_chunks(d, h, s, pos, (n - 1) as nat, depth)->Ok_0;
        lemma_chunk_depth(d, h, s, at, depth);
    }
}

} // verus!
