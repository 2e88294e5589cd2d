//! Immutable FST layers (maps from byte keys to values, and sets of byte
//! keys), the unions of two layers, and the listings that describe them.
use fst::Streamer;
use vstd::prelude::*;
use crate::text::{bytes_lt, lemma_bytes_lt_asymmetric};

verus! {

#[verifier::external_type_specification]
#[verifier::external_body]
#[verifier::reject_recursive_types(D)]
pub struct ExFstMap<D>(fst::Map<D>);

#[verifier::external_type_specification]
#[verifier::external_body]
#[verifier::reject_recursive_types(D)]
pub struct ExFstSet<D>(fst::Set<D>);

/// What an FST map holds.
pub uninterp spec fn map_layer_entries(m: fst::Map<Vec<u8>>) -> Map<Seq<u8>, u64>;

/// Whether the bytes under an FST map are an FST that fst itself wrote, so
/// that its reads agree with one another and with `map_layer_entries`.
pub uninterp spec fn map_layer_intact(m: fst::Map<Vec<u8>>) -> bool;

/// How many bytes an FST map takes.
pub uninterp spec fn map_layer_size(m: fst::Map<Vec<u8>>) -> nat;

/// The entries of the FST map that the given bytes encode, or `None` when
/// the bytes are not an FST map as fst writes one.
pub uninterp spec fn map_layer_decoded(bytes: Seq<u8>) -> Option<Map<Seq<u8>, u64>>;

/// The keys an FST set holds.
pub uninterp spec fn set_layer_keys(s: fst::Set<Vec<u8>>) -> Set<Seq<u8>>;

/// Whether the bytes under an FST set are an FST that fst itself wrote, so
/// that its reads agree with one another and with `set_layer_keys`.
pub uninterp spec fn set_layer_intact(s: fst::Set<Vec<u8>>) -> bool;

/// How many bytes an FST set takes.
pub uninterp spec fn set_layer_size(s: fst::Set<Vec<u8>>) -> nat;

/// The keys of the FST set that the given bytes encode, or `None` when the
/// bytes are not an FST set as fst writes one.
pub uninterp spec fn set_layer_decoded(bytes: Seq<u8>) -> Option<Set<Seq<u8>>>;

/// Whether the keys of a listing strictly increase.
pub open spec fn keys_increase(s: Seq<Seq<u8>>) -> bool {
    forall|i: int, j: int| 0 <= i < j < s.len() ==> bytes_lt(s[i], s[j])
}

/// `s` lists the entries of `m` once each, in increasing order of key.
pub open spec fn lists_map(s: Seq<(Seq<u8>, u64)>, m: Map<Seq<u8>, u64>) -> bool {
    &&& forall|i: int, j: int| 0 <= i < j < s.len() ==> bytes_lt(s[i].0, s[j].0)
    &&& forall|i: int| 0 <= i < s.len() ==> m.contains_key(#[trigger] s[i].0) && m[s[i].0] == s[i].1
    &&& forall|k: Seq<u8>| m.contains_key(k) ==> exists|i: int| 0 <= i < s.len() && #[trigger] s[i].0 == k
}

/// `s` lists the keys of `keys` once each, in increasing order.
pub open spec fn lists_set(s: Seq<Seq<u8>>, keys: Set<Seq<u8>>) -> bool {
    &&& keys_increase(s)
    &&& forall|i: int| 0 <= i < s.len() ==> keys.contains(#[trigger] s[i])
    &&& forall|k: Seq<u8>| keys.contains(k) ==> exists|i: int| 0 <= i < s.len() && #[trigger] s[i] == k
}

pub open spec fn byte_pairs(v: Seq<(Vec<u8>, u64)>) -> Seq<(Seq<u8>, u64)> {
    v.map_values(|p: (Vec<u8>, u64)| (p.0@, p.1))
}

pub open spec fn byte_keys(v: Seq<Vec<u8>>) -> Seq<Seq<u8>> {
    v.map_values(|k: Vec<u8>| k@)
}

/// The map a key-ordered listing describes.
pub open spec fn map_of_listing(s: Seq<(Seq<u8>, u64)>) -> Map<Seq<u8>, u64>
    decreases s.len(),
{
    if s.len() == 0 {
        Map::empty()
    } else {
        map_of_listing(s.drop_last()).insert(s.last().0, s.last().1)
    }
}

/// The set a key-ordered listing describes.
pub open spec fn set_of_listing(s: Seq<Seq<u8>>) -> Set<Seq<u8>>
    decreases s.len(),
{
    if s.len() == 0 {
        Set::empty()
    } else {
        set_of_listing(s.drop_last()).insert(s.last())
    }
}

/// The little-endian number held by the eight bytes of `b` from `at`.
pub open spec fn le_u64(b: Seq<u8>, at: int) -> int {
    b[at] + 0x100 * b[at + 1] + 0x1_0000 * b[at + 2] + 0x100_0000 * b[at + 3] + 0x1_0000_0000 * b[at + 4]
        + 0x100_0000_0000 * b[at + 5] + 0x1_0000_0000_0000 * b[at + 6] + 0x100_0000_0000_0000 * b[at + 7]
}

/// Whether fst reads bytes as an FST (`fst::raw::Fst::new`): at least 36
/// bytes, a format version from 1 to 3 in the first eight, and a root
/// address (the eight bytes before the end, or before the checksum from
/// version 3 on) that is not zero unless the FST is the empty one.
pub open spec fn fst_accepts(b: Seq<u8>) -> bool {
    let n = b.len() as int;
    n >= 36 && 1 <= le_u64(b, 0) <= 3 && {
        let end = if le_u64(b, 0) <= 2 {
            n
        } else {
            n - 4
        };
        let empty_total: int = if le_u64(b, 0) <= 2 {
            32
        } else {
            36
        };
        !(le_u64(b, end - 8) == 0 && n != empty_total)
    }
}

/// A read gave an intact map holding `e` (finitely many entries).
pub open spec fn map_read_holds(r: Result<fst::Map<Vec<u8>>, String>, e: Map<Seq<u8>, u64>) -> bool {
    r matches Ok(m) && map_layer_intact(m) && map_layer_entries(m) == e && e.dom().finite()
}

/// A read gave an intact set holding the keys `k` (finitely many).
pub open spec fn set_read_holds(r: Result<fst::Set<Vec<u8>>, String>, k: Set<Seq<u8>>) -> bool {
    r matches Ok(s) && set_layer_intact(s) && set_layer_keys(s) == k && k.finite()
}

/// `fst::Map::new`: reads a map from its bytes, succeeding exactly when the
/// length, version and root address pass its checks (`fst_accepts`). It is
/// stated for 64-bit targets only: fst turns the 64-bit addresses it reads
/// into `usize` and panics where one does not fit. Every FST map that fst
/// wrote passes the checks, and the map then holds what the bytes encode. Of
/// a map read from other bytes that pass them nothing is stated (fst warns
/// that reads of it may panic), so the map is not marked intact.
#[verifier::external_body]
pub(crate) fn map_layer_from_bytes(bytes: Vec<u8>) -> (r: Result<fst::Map<Vec<u8>>, String>)
    requires
        usize::BITS == 64,
    ensures
        r is Ok <==> fst_accepts(bytes@),
        map_layer_decoded(bytes@) matches Some(e) ==> map_read_holds(r, e),
        r matches Ok(m) ==> (map_layer_intact(m) ==> map_layer_decoded(bytes@) == Some(
            map_layer_entries(m),
        )),
        r matches Ok(m) ==> map_layer_size(m) == bytes@.len(),
{
    fst::Map::new(bytes).map_err(|e| e.to_string())
}

/// One FST map read from its bytes: its reads hold only when fst wrote the
/// bytes (`intact`), which fst cannot tell from the bytes.
pub struct MapLayer {
    pub(crate) map: fst::Map<Vec<u8>>,
}

impl MapLayer {
    /// Whether fst wrote the bytes under the layer.
    pub closed spec fn intact(&self) -> bool {
        map_layer_intact(self.map)
    }

    /// What the layer holds.
    pub closed spec fn entries(&self) -> Map<Seq<u8>, u64> {
        map_layer_entries(self.map)
    }

    /// The layer the bytes hold: an error exactly when fst refuses them;
    /// bytes fst wrote give an intact layer holding what they encode.
    pub fn from_bytes(bytes: Vec<u8>) -> (r: Result<MapLayer, String>)
        requires
            usize::BITS == 64,
        ensures
            r is Ok <==> fst_accepts(bytes@),
            map_layer_decoded(bytes@) matches Some(e) ==> (r matches Ok(l) && l.intact() && l.entries() == e),
            r matches Ok(l) ==> (l.intact() ==> map_layer_decoded(bytes@) == Some(l.entries())),
    {
        match map_layer_from_bytes(bytes) {
            Ok(map) => Ok(MapLayer { map }),
            Err(e) => Err(e),
        }
    }
}

/// A map layer is what its map is.
pub(crate) proof fn lemma_map_layer(l: &MapLayer)
    ensures
        l.intact() == map_layer_intact(l.map),
        l.entries() == map_layer_entries(l.map),
{
}

/// A set layer is what its set is.
pub(crate) proof fn lemma_set_layer(l: &SetLayer)
    ensures
        l.intact() == set_layer_intact(l.set),
        l.keys() == set_layer_keys(l.set),
{
}

/// One FST set read from its bytes, as `MapLayer`.
pub struct SetLayer {
    pub(crate) set: fst::Set<Vec<u8>>,
}

impl SetLayer {
    /// Whether fst wrote the bytes under the layer.
    pub closed spec fn intact(&self) -> bool {
        set_layer_intact(self.set)
    }

    /// The keys the layer holds.
    pub closed spec fn keys(&self) -> Set<Seq<u8>> {
        set_layer_keys(self.set)
    }

    /// The layer the bytes hold: an error exactly when fst refuses them;
    /// bytes fst wrote give an intact layer holding the keys they encode.
    pub fn from_bytes(bytes: Vec<u8>) -> (r: Result<SetLayer, String>)
        requires
            usize::BITS == 64,
        ensures
            r is Ok <==> fst_accepts(bytes@),
            set_layer_decoded(bytes@) matches Some(k) ==> (r matches Ok(l) && l.intact() && l.keys() == k
                && k.finite()),
            r matches Ok(l) ==> (l.intact() ==> set_layer_decoded(bytes@) == Some(l.keys())),
    {
        match set_layer_from_bytes(bytes) {
            Ok(set) => Ok(SetLayer { set }),
            Err(e) => Err(e),
        }
    }
}

/// `fst::Map::get`: the value of a key, if the map holds it. Only for an
/// intact map: fst warns that reads of other maps may panic.
#[verifier::external_body]
pub(crate) fn map_layer_get(m: &fst::Map<Vec<u8>>, key: &[u8]) -> (r: Option<u64>)
    requires
        map_layer_intact(*m),
    ensures
        r == map_layer_entries(*m).get(key@),
{
    m.get(key)
}

/// `fst::Map::len`: the number of entries of an intact map (for any other
/// map it gives the count recorded in the bytes, of which nothing is stated).
#[verifier::external_body]
pub(crate) fn map_layer_len(m: &fst::Map<Vec<u8>>) -> (r: usize)
    ensures
        map_layer_intact(*m) ==> r == map_layer_entries(*m).len(),
{
    m.len()
}

/// `fst::map::Stream::into_byte_vec` on `fst::Map::stream`: every entry of
/// an intact map, in lexicographic order of key (on other maps the walk may
/// panic).
#[verifier::external_body]
pub(crate) fn map_layer_listing(m: &fst::Map<Vec<u8>>) -> (r: Vec<(Vec<u8>, u64)>)
    requires
        map_layer_intact(*m),
    ensures
        lists_map(byte_pairs(r@), map_layer_entries(*m)),
{
    m.stream().into_byte_vec()
}

/// `fst::Map::from_iter`: builds a map in memory from entries given in
/// strictly increasing order of key. Building only fails on keys out of
/// order (writing to memory cannot fail), so it succeeds here.
#[verifier::external_body]
pub(crate) fn map_layer_from_listing(entries: Vec<(Vec<u8>, u64)>) -> (r: Result<fst::Map<Vec<u8>>, String>)
    requires
        entries_increase(byte_pairs(entries@)),
    ensures
        r is Ok,
        r matches Ok(m) ==> map_layer_intact(m) && map_layer_entries(m) == map_of_listing(
            byte_pairs(entries@),
        ),
{
    fst::Map::from_iter(entries).map_err(|e| e.to_string())
}

/// A union stream gathered into values: each key with its (map index,
/// value) pairs.
pub open spec fn union_view(r: Seq<(Vec<u8>, Vec<(usize, u64)>)>) -> Seq<(Seq<u8>, Seq<(usize, u64)>)> {
    r.map_values(|p: (Vec<u8>, Vec<(usize, u64)>)| (p.0@, p.1@))
}

/// `s` lists every key of `a` or `b` once, in increasing order, each with
/// the values the maps hold for it: `(0, a[k])` when `a` holds it, `(1,
/// b[k])` when `b` does, and nothing else.
pub open spec fn lists_union(s: Seq<(Seq<u8>, Seq<(usize, u64)>)>, a: Map<Seq<u8>, u64>, b: Map<Seq<u8>, u64>) -> bool {
    &&& forall|i: int, j: int| 0 <= i < j < s.len() ==> bytes_lt(s[i].0, s[j].0)
    &&& forall|i: int| 0 <= i < s.len() ==> a.contains_key(#[trigger] s[i].0) || b.contains_key(s[i].0)
    &&& forall|k: Seq<u8>| a.contains_key(k) || b.contains_key(k) ==> exists|i: int| 0 <= i < s.len() && #[trigger] s[i].0 == k
    &&& forall|i: int, t: int| 0 <= i < s.len() && 0 <= t < s[i].1.len() ==> {
        ||| (#[trigger] s[i].1[t] == (0usize, a[s[i].0]) && a.contains_key(s[i].0))
        ||| (s[i].1[t] == (1usize, b[s[i].0]) && b.contains_key(s[i].0))
    }
    &&& forall|i: int| 0 <= i < s.len() && a.contains_key(#[trigger] s[i].0) ==> s[i].1.contains((0usize, a[s[i].0]))
    &&& forall|i: int| 0 <= i < s.len() && b.contains_key(#[trigger] s[i].0) ==> s[i].1.contains((1usize, b[s[i].0]))
}

/// `fst::map::OpBuilder::union` of two intact maps, the stream gathered into
/// a vector: every key of either in increasing order, each with the (index
/// of the map, value) pairs of the maps that hold it (on other maps the
/// walk may panic).
#[verifier::external_body]
pub(crate) fn map_layer_union(a: &fst::Map<Vec<u8>>, b: &fst::Map<Vec<u8>>) -> (r: Vec<(Vec<u8>, Vec<(usize, u64)>)>)
    requires
        map_layer_intact(*a),
        map_layer_intact(*b),
    ensures
        lists_union(
            union_view(r@),
            map_layer_entries(*a),
            map_layer_entries(*b),
        ),
{
    let mut union = a.op().add(b).union();
    let mut out = Vec::new();
    while let Some((key, values)) = union.next() {
        out.push((key.to_vec(), values.iter().map(|v| (v.index, v.value)).collect()));
    }
    out
}

/// Two maps joined: every key of either, with the smaller value where both
/// hold it.
pub open spec fn least_union(a: Map<Seq<u8>, u64>, b: Map<Seq<u8>, u64>) -> Map<Seq<u8>, u64> {
    Map::new(
        |k: Seq<u8>| a.contains_key(k) || b.contains_key(k),
        |k: Seq<u8>|
            if a.contains_key(k) && b.contains_key(k) {
                if a[k] <= b[k] {
                    a[k]
                } else {
                    b[k]
                }
            } else if a.contains_key(k) {
                a[k]
            } else {
                b[k]
            },
    )
}

/// The value the first map gives, if it gave one.
fn first_map_value(vs: &Vec<(usize, u64)>) -> (r: Option<u64>)
    ensures
        r matches Some(v) ==> vs@.contains((0usize, v)),
        r is None ==> forall|t: int| 0 <= t < vs@.len() ==> #[trigger] vs@[t].0 != 0,
{
    let mut j: usize = 0;
    while j < vs.len()
        invariant
            0 <= j <= vs.len(),
            forall|t: int| 0 <= t < j ==> #[trigger] vs@[t].0 != 0,
        decreases vs.len() - j,
    {
        if vs[j].0 == 0 {
            assert(vs@[j as int] == (0usize, vs[j as int].1));
            return Some(vs[j].1);
        }
        j = j + 1;
    }
    None
}

/// The smallest of the values given, if any.
fn least_map_value(vs: &Vec<(usize, u64)>) -> (r: Option<u64>)
    ensures
        r is Some <==> vs@.len() > 0,
        r matches Some(v) ==> (exists|t: int| 0 <= t < vs@.len() && #[trigger] vs@[t].1 == v),
        r matches Some(v) ==> forall|t: int| 0 <= t < vs@.len() ==> v <= #[trigger] vs@[t].1,
{
    if vs.len() == 0 {
        return None;
    }
    let mut least = vs[0].1;
    let mut j: usize = 1;
    while j < vs.len()
        invariant
            1 <= j <= vs.len(),
            exists|t: int| 0 <= t < j && #[trigger] vs@[t].1 == least,
            forall|t: int| 0 <= t < j ==> least <= #[trigger] vs@[t].1,
        decreases vs.len() - j,
    {
        if vs[j].1 < least {
            least = vs[j].1;
        }
        j = j + 1;
    }
    Some(least)
}

/// Every entry of two maps, in increasing order of key: where both hold a
/// key, the first map's value (`least` false) or the smaller value (`least`
/// true).
pub(crate) fn union_listing(a: &fst::Map<Vec<u8>>, b: &fst::Map<Vec<u8>>, least: bool) -> (r: Vec<(Vec<u8>, u64)>)
    requires
        map_layer_intact(*a),
        map_layer_intact(*b),
    ensures
        entries_increase(byte_pairs(r@)),
        map_of_listing(byte_pairs(r@)) == (if least {
            least_union(map_layer_entries(*a), map_layer_entries(*b))
        } else {
            map_layer_entries(*b).union_prefer_right(map_layer_entries(*a))
        }),
{
    let ghost ea = map_layer_entries(*a);
    let ghost eb = map_layer_entries(*b);
    let ghost target = if least {
        least_union(ea, eb)
    } else {
        eb.union_prefer_right(ea)
    };
    let u = map_layer_union(a, b);
    let ghost uv = union_view(u@);
    let mut out: Vec<(Vec<u8>, u64)> = Vec::new();
    let mut i: usize = 0;
    while i < u.len()
        invariant
            uv == union_view(u@),
            lists_union(uv, ea, eb),
            target == (if least {
                least_union(ea, eb)
            } else {
                eb.union_prefer_right(ea)
            }),
            0 <= i <= u.len(),
            out.len() == i,
            forall|t: int| 0 <= t < i ==> (#[trigger] byte_pairs(out@)[t]).0 == uv[t].0,
            forall|t: int| 0 <= t < i ==> (#[trigger] byte_pairs(out@)[t]).1 == target[uv[t].0],
        decreases u.len() - i,
    {
        let ghost k = uv[i as int].0;
        let ghost vv = uv[i as int].1;
        assert(u@[i as int].0@ == k && u@[i as int].1@ == vv);
        let vs = &u[i].1;
        proof {
            assert(ea.contains_key(k) || eb.contains_key(k));
            if ea.contains_key(k) {
                assert(vv.contains((0usize, ea[k])));
            }
            if eb.contains_key(k) {
                assert(vv.contains((1usize, eb[k])));
            }
            assert(vs@.len() > 0);
        }
        let value = if least {
            match least_map_value(vs) {
                Some(v) => v,
                None => vs[0].1,
            }
        } else {
            match first_map_value(vs) {
                Some(v) => v,
                None => vs[0].1,
            }
        };
        proof {
            if least {
                let t = choose|t: int| 0 <= t < vv.len() && #[trigger] vv[t].1 == value;
                assert(vv[t] == vv[t]);
                if ea.contains_key(k) {
                    let ta = choose|ta: int| 0 <= ta < vv.len() && vv[ta] == (0usize, ea[k]);
                    assert(value <= vv[ta].1);
                }
                if eb.contains_key(k) {
                    let tb = choose|tb: int| 0 <= tb < vv.len() && vv[tb] == (1usize, eb[k]);
                    assert(value <= vv[tb].1);
                }
                assert(value == target[k]);
            } else {
                if ea.contains_key(k) {
                    let ta = choose|ta: int| 0 <= ta < vv.len() && vv[ta] == (0usize, ea[k]);
                    assert(vv[ta].0 == 0);
                    if exists|t: int| 0 <= t < vv.len() && vv[t] == (0usize, value) {
                        let t = choose|t: int| 0 <= t < vv.len() && vv[t] == (0usize, value);
                        assert(vv[t] == vv[t]);
                    }
                } else {
                    assert(vv[0] == vv[0]);
                }
                assert(value == target[k]);
            }
        }
        let key = u[i].0.clone();
        let ghost before = byte_pairs(out@);
        out.push((key, value));
        assert(byte_pairs(out@) =~= before.push((k, value)));
        i = i + 1;
    }
    let ghost ob = byte_pairs(out@);
    assert(entries_increase(ob)) by {
        assert forall|p: int, q: int| 0 <= p < q < ob.len() implies bytes_lt(ob[p].0, ob[q].0) by {
            assert(ob[p].0 == uv[p].0);
            assert(ob[q].0 == uv[q].0);
        }
    }
    assert(lists_map(ob, target)) by {
        assert forall|t: int| 0 <= t < ob.len() implies target.contains_key(#[trigger] ob[t].0) && target[ob[t].0]
            == ob[t].1 by {
            assert(ob[t].0 == uv[t].0);
        }
        assert forall|k: Seq<u8>| target.contains_key(k) implies exists|t: int| 0 <= t < ob.len() && #[trigger] ob[t].0 == k by {
            let t = choose|t: int| 0 <= t < uv.len() && #[trigger] uv[t].0 == k;
            assert(ob[t].0 == k);
        }
    }
    proof {
        lemma_listing_describes(ob);
        lemma_listed_map_unique(ob, map_of_listing(ob), target);
    }
    out
}

/// `fst::raw::Fst::to_vec` of `fst::Map::as_fst`: the bytes of the map,
/// which for an intact map encode what it holds.
#[verifier::external_body]
pub(crate) fn map_layer_bytes(m: &fst::Map<Vec<u8>>) -> (r: Vec<u8>)
    ensures
        r@.len() == map_layer_size(*m),
        map_layer_intact(*m) ==> map_layer_decoded(r@) == Some(map_layer_entries(*m)),
{
    m.as_fst().to_vec()
}

/// `fst::raw::Fst::size` of `fst::Map::as_fst`: the number of bytes of the map.
#[verifier::external_body]
pub(crate) fn map_layer_byte_len(m: &fst::Map<Vec<u8>>) -> (r: u64)
    ensures
        r == map_layer_size(*m),
{
    m.as_fst().size() as u64
}

/// `fst::Set::new`: reads a set from its bytes, succeeding exactly when they
/// pass the checks of `fst_accepts` (stated, as for maps, for 64-bit
/// targets only). Every FST set that fst wrote passes them, and the set then
/// holds the keys the bytes encode; of a set read from other bytes that pass
/// them nothing is stated (reads of it may panic), so the set is not marked
/// intact.
#[verifier::external_body]
pub(crate) fn set_layer_from_bytes(bytes: Vec<u8>) -> (r: Result<fst::Set<Vec<u8>>, String>)
    requires
        usize::BITS == 64,
    ensures
        r is Ok <==> fst_accepts(bytes@),
        set_layer_decoded(bytes@) matches Some(k) ==> set_read_holds(r, k),
        r matches Ok(s) ==> (set_layer_intact(s) ==> set_layer_decoded(bytes@) == Some(
            set_layer_keys(s),
        )),
        r matches Ok(s) ==> set_layer_size(s) == bytes@.len(),
{
    fst::Set::new(bytes).map_err(|e| e.to_string())
}

/// `fst::Set::contains`: whether an intact set holds the key (reads of other
/// sets may panic).
#[verifier::external_body]
pub(crate) fn set_layer_contains(s: &fst::Set<Vec<u8>>, key: &[u8]) -> (r: bool)
    requires
        set_layer_intact(*s),
    ensures
        r == set_layer_keys(*s).contains(key@),
{
    s.contains(key)
}

/// `fst::Set::len`: the number of keys of an intact set (for any other set
/// it gives the count recorded in the bytes, of which nothing is stated).
#[verifier::external_body]
pub(crate) fn set_layer_len(s: &fst::Set<Vec<u8>>) -> (r: usize)
    ensures
        set_layer_intact(*s) ==> r == set_layer_keys(*s).len(),
{
    s.len()
}

/// `fst::set::Stream::into_bytes` on `fst::Set::stream`: every key of an
/// intact set, in lexicographic order (on other sets the walk may panic).
#[verifier::external_body]
pub(crate) fn set_layer_listing(s: &fst::Set<Vec<u8>>) -> (r: Vec<Vec<u8>>)
    requires
        set_layer_intact(*s),
    ensures
        lists_set(byte_keys(r@), set_layer_keys(*s)),
{
    s.stream().into_bytes()
}

/// `fst::Set::from_iter`: builds a set in memory from keys given in strictly
/// increasing order, which succeeds as for maps.
#[verifier::external_body]
pub(crate) fn set_layer_from_listing(keys: Vec<Vec<u8>>) -> (r: Result<fst::Set<Vec<u8>>, String>)
    requires
        keys_increase(byte_keys(keys@)),
    ensures
        r is Ok,
        r matches Ok(s) ==> set_layer_intact(s) && set_layer_keys(s) == set_of_listing(
            byte_keys(keys@),
        ),
{
    fst::Set::from_iter(keys).map_err(|e| e.to_string())
}

/// `fst::set::OpBuilder::union` of two sets, its keys gathered into a new
/// set in memory by `fst::SetBuilder::extend_stream`: of two intact sets,
/// an intact set holding the keys of either (on other sets the walk may
/// panic).
#[verifier::external_body]
pub(crate) fn set_layer_union(a: &fst::Set<Vec<u8>>, b: &fst::Set<Vec<u8>>) -> (r: Result<fst::Set<Vec<u8>>, String>)
    requires
        set_layer_intact(*a),
        set_layer_intact(*b),
    ensures
        set_read_holds(
            r,
            set_layer_keys(*a) + set_layer_keys(*b),
        ),
{
    let mut builder = fst::SetBuilder::memory();
    builder.extend_stream(a.op().add(b).union()).map_err(|e| e.to_string())?;
    Ok(builder.into_set())
}

/// `fst::raw::Fst::to_vec` of `fst::Set::as_fst`: the bytes of the set,
/// which for an intact set encode the keys it holds.
#[verifier::external_body]
pub(crate) fn set_layer_bytes(s: &fst::Set<Vec<u8>>) -> (r: Vec<u8>)
    ensures
        r@.len() == set_layer_size(*s),
        set_layer_intact(*s) ==> set_layer_decoded(r@) == Some(set_layer_keys(*s)),
{
    s.as_fst().to_vec()
}

/// `fst::raw::Fst::size` of `fst::Set::as_fst`: the number of bytes of the set.
#[verifier::external_body]
pub(crate) fn set_layer_byte_len(s: &fst::Set<Vec<u8>>) -> (r: u64)
    ensures
        r == set_layer_size(*s),
{
    s.as_fst().size() as u64
}

/// Whether the keys of a listing of entries strictly increase.
pub open spec fn entries_increase(s: Seq<(Seq<u8>, u64)>) -> bool {
    forall|i: int, j: int| 0 <= i < j < s.len() ==> bytes_lt(s[i].0, s[j].0)
}

/// The map a listing describes has finitely many keys.
pub proof fn lemma_listing_map_finite(s: Seq<(Seq<u8>, u64)>)
    ensures
        map_of_listing(s).dom().finite(),
    decreases s.len(),
{
    if s.len() > 0 {
        lemma_listing_map_finite(s.drop_last());
    }
}

/// The set a listing describes is finite.
pub proof fn lemma_listing_set_finite(s: Seq<Seq<u8>>)
    ensures
        set_of_listing(s).finite(),
    decreases s.len(),
{
    if s.len() > 0 {
        lemma_listing_set_finite(s.drop_last());
    }
}

/// A listing whose keys strictly increase lists the map it describes.
pub proof fn lemma_listing_describes(s: Seq<(Seq<u8>, u64)>)
    requires
        entries_increase(s),
    ensures
        lists_map(s, map_of_listing(s)),
    decreases s.len(),
{
    if s.len() > 0 {
        let s2 = s.drop_last();
        let m2 = map_of_listing(s2);
        lemma_listing_describes(s2);
        let last = s.last();
        assert(!m2.contains_key(last.0)) by {
            if m2.contains_key(last.0) {
                let i = choose|i: int| 0 <= i < s2.len() && #[trigger] s2[i].0 == last.0;
                assert(bytes_lt(s[i].0, s[s.len() - 1].0));
                lemma_bytes_lt_asymmetric(s[i].0, last.0);
            }
        }
        let m = map_of_listing(s);
        assert forall|i: int| 0 <= i < s.len() implies m.contains_key(#[trigger] s[i].0) && m[s[i].0]
            == s[i].1 by {
            if i < s.len() - 1 {
                assert(s2[i] == s[i]);
                assert(s[i].0 != last.0);
            }
        }
        assert forall|k: Seq<u8>| m.contains_key(k) implies exists|i: int|
            0 <= i < s.len() && #[trigger] s[i].0 == k by {
            if k == last.0 {
                assert(s[s.len() - 1].0 == k);
            } else {
                let i = choose|i: int| 0 <= i < s2.len() && #[trigger] s2[i].0 == k;
                assert(s[i].0 == k);
            }
        }
    }
}

/// A listing of keys that strictly increase lists the set it describes.
pub proof fn lemma_key_listing_describes(s: Seq<Seq<u8>>)
    requires
        keys_increase(s),
    ensures
        lists_set(s, set_of_listing(s)),
    decreases s.len(),
{
    if s.len() > 0 {
        let s2 = s.drop_last();
        lemma_key_listing_describes(s2);
        let m = set_of_listing(s);
        assert forall|i: int| 0 <= i < s.len() implies m.contains(#[trigger] s[i]) by {
            if i < s.len() - 1 {
                assert(s2[i] == s[i]);
            }
        }
        assert forall|k: Seq<u8>| m.contains(k) implies exists|i: int|
            0 <= i < s.len() && #[trigger] s[i] == k by {
            if k == s.last() {
                assert(s[s.len() - 1] == k);
            } else {
                let i = choose|i: int| 0 <= i < s2.len() && #[trigger] s2[i] == k;
                assert(s[i] == k);
            }
        }
    }
}

/// A listing determines the map it lists.
pub proof fn lemma_listed_map_unique(s: Seq<(Seq<u8>, u64)>, m1: Map<Seq<u8>, u64>, m2: Map<Seq<u8>, u64>)
    requires
        lists_map(s, m1),
        lists_map(s, m2),
    ensures
        m1 == m2,
{
    assert forall|k: Seq<u8>| m1.contains_key(k) implies m2.contains_key(k) && m1[k] == m2[k] by {
        let i = choose|i: int| 0 <= i < s.len() && #[trigger] s[i].0 == k;
    }
    assert forall|k: Seq<u8>| m2.contains_key(k) implies m1.contains_key(k) by {
        let i = choose|i: int| 0 <= i < s.len() && #[trigger] s[i].0 == k;
    }
    assert(m1 =~= m2);
}

/// A listing of keys determines the set it lists.
pub proof fn lemma_listed_set_unique(s: Seq<Seq<u8>>, a: Set<Seq<u8>>, b: Set<Seq<u8>>)
    requires
        lists_set(s, a),
        lists_set(s, b),
    ensures
        a == b,
{
    assert forall|k: Seq<u8>| a.contains(k) <==> b.contains(k) by {
        if a.contains(k) {
            let i = choose|i: int| 0 <= i < s.len() && #[trigger] s[i] == k;
        }
        if b.contains(k) {
            let i = choose|i: int| 0 <= i < s.len() && #[trigger] s[i] == k;
        }
    }
    assert(a =~= b);
}

} // verus!
