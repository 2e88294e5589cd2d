//! The forms of one length, synthesized in a fixed order from the strata of
//! shorter forms. The order is deterministic, so the index of a form in it is
//! a complete resume coordinate.
use vstd::prelude::*;
use crate::form::all_ascii;
use crate::grammar::{lemma_form_lengths, freeze, freeze_text, lemma_ascii_forms, rform, rform_text, wrap, wrap_text};

verus! {

/// Forms grouped by their length: `nullaries[l]` and `unaries[l]` hold the
/// forms of length `l`.
pub struct Strata {
    pub nullaries: Vec<Vec<String>>,
    pub unaries: Vec<Vec<String>>,
}

pub open spec fn texts_of(v: Vec<String>) -> Seq<Seq<char>> {
    v@.map_values(|s: String| s@)
}

/// One kind of strata, as texts; lengths beyond the list hold nothing.
pub open spec fn stratum(lists: Seq<Vec<String>>, l: int) -> Seq<Seq<char>> {
    if 0 <= l < lists.len() {
        texts_of(lists[l])
    } else {
        Seq::empty()
    }
}

impl Strata {
    pub open spec fn n(&self, l: int) -> Seq<Seq<char>> {
        stratum(self.nullaries@, l)
    }

    pub open spec fn u(&self, l: int) -> Seq<Seq<char>> {
        stratum(self.unaries@, l)
    }

    /// Every form the strata hold is ASCII.
    pub open spec fn all_ascii(&self) -> bool {
        &&& forall|l: int, i: int| 0 <= i < self.n(l).len() ==> all_ascii(#[trigger] self.n(l)[i])
        &&& forall|l: int, i: int| 0 <= i < self.u(l).len() ==> all_ascii(#[trigger] self.u(l)[i])
    }

    pub fn n_len(&self, l: u64) -> (r: usize)
        ensures
            r == self.n(l as int).len(),
    {
        if l < self.nullaries.len() as u64 {
            self.nullaries[l as usize].len()
        } else {
            0
        }
    }

    pub fn u_len(&self, l: u64) -> (r: usize)
        ensures
            r == self.u(l as int).len(),
    {
        if l < self.unaries.len() as u64 {
            self.unaries[l as usize].len()
        } else {
            0
        }
    }

    pub fn n_at(&self, l: u64, i: usize) -> (r: &str)
        requires
            i < self.n(l as int).len(),
        ensures
            r@ == self.n(l as int)[i as int],
    {
        assert(l < self.nullaries@.len());
        let count = self.nullaries.len();
        assert(l < count);
        let idx: usize = l as usize;
        let list = &self.nullaries[idx];
        assert(*list == self.nullaries@[l as int]);
        assert(texts_of(*list).len() == list@.len());
        assert(texts_of(*list)[i as int] == list@[i as int]@);
        list[i].as_str()
    }

    pub fn u_at(&self, l: u64, i: usize) -> (r: &str)
        requires
            i < self.u(l as int).len(),
        ensures
            r@ == self.u(l as int)[i as int],
    {
        assert(l < self.unaries@.len());
        let count = self.unaries.len();
        assert(l < count);
        let idx: usize = l as usize;
        let list = &self.unaries[idx];
        assert(*list == self.unaries@[l as int]);
        assert(texts_of(*list).len() == list@.len());
        assert(texts_of(*list)[i as int] == list@[i as int]@);
        list[i].as_str()
    }
}

/// `R(u#,a,b)` for every unary `u`, first `a` and second `b`, in the order of
/// three nested loops over `us`, `xs`, `ys`.
pub open spec fn r_products(us: Seq<Seq<char>>, xs: Seq<Seq<char>>, ys: Seq<Seq<char>>) -> Seq<
    (Seq<char>, bool),
> {
    let w: int = (xs.len() * ys.len()) as int;
    Seq::new(
        (us.len() * w) as nat,
        |k: int| (rform(freeze(us[k / w]), xs[(k % w) / ys.len() as int], ys[(k % w) % ys.len() as int]), true),
    )
}

/// `R(u#,n,*)` then `R(u#,*,n)` for every unary `u` and nullary `n`, in the
/// order of two nested loops over `us` and `ns`.
pub open spec fn u_products(us: Seq<Seq<char>>, ns: Seq<Seq<char>>) -> Seq<(Seq<char>, bool)> {
    let w: int = (ns.len() * 2) as int;
    Seq::new(
        (us.len() * w) as nat,
        |k: int|
            if (k % w) % 2 == 0 {
                (rform(freeze(us[k / w]), ns[(k % w) / 2], "*"@), false)
            } else {
                (rform(freeze(us[k / w]), "*"@, ns[(k % w) / 2]), false)
            },
    )
}

/// The `R` nullaries of length `length` whose unary has length `lu`, for
/// each length of the first argument from 1 up.
pub open spec fn r_block(s: Strata, length: int, lu: int) -> Seq<(Seq<char>, bool)> {
    r_subs(s, length, lu).flatten()
}

/// The products of one `R` block, one per length of the first argument.
pub open spec fn r_subs(s: Strata, length: int, lu: int) -> Seq<Seq<(Seq<char>, bool)>> {
    Seq::new(
        (length - 6 - lu) as nat,
        |e: int| r_products(s.u(lu), s.n(e + 1), s.n(length - 5 - lu - (e + 1))),
    )
}

/// The blocks of `R` nullaries of length `length`, one per unary length from 4 up.
pub open spec fn r_blocks(s: Strata, length: int) -> Seq<Seq<(Seq<char>, bool)>> {
    Seq::new((length - 10) as nat, |d: int| r_block(s, length, d + 4))
}

/// The blocks of `R` unaries of length `length`, one per unary length from 4 up.
pub open spec fn u_blocks(s: Strata, length: int) -> Seq<Seq<(Seq<char>, bool)>> {
    Seq::new((length - 10) as nat, |d: int| u_products(s.u(d + 4), s.n(length - 6 - (d + 4))))
}

/// Every form of length `length`, each marked whether it is a nullary, in
/// the order the sweep synthesizes them: the nullaries `0`, `^(N)`,
/// `R(U#,N,N)`, then the unaries `^(*)`, `^(U)`, `R(U#,N,*)`/`R(U#,*,N)`.
pub open spec fn stratum_items(s: Strata, length: int) -> Seq<(Seq<char>, bool)> {
    let p1: Seq<(Seq<char>, bool)> = if length == 1 {
        seq![("0"@, true)]
    } else {
        Seq::empty()
    };
    let p2: Seq<(Seq<char>, bool)> = if length >= 4 {
        s.n(length - 3).map_values(|x: Seq<char>| (wrap(x), true))
    } else {
        Seq::empty()
    };
    let p3: Seq<(Seq<char>, bool)> = if length >= 11 {
        r_blocks(s, length).flatten()
    } else {
        Seq::empty()
    };
    let p4: Seq<(Seq<char>, bool)> = if length == 4 {
        seq![("^(*)"@, false)]
    } else {
        Seq::empty()
    };
    let p5: Seq<(Seq<char>, bool)> = if length >= 7 {
        s.u(length - 3).map_values(|x: Seq<char>| (wrap(x), false))
    } else {
        Seq::empty()
    };
    let p6: Seq<(Seq<char>, bool)> = if length >= 11 {
        u_blocks(s, length).flatten()
    } else {
        Seq::empty()
    };
    p1 + p2 + p3 + p4 + p5 + p6
}

/// The entries of a flattened sequence come block after block.
pub proof fn lemma_flatten_at<A>(s: Seq<Seq<A>>, i: int, j: int)
    requires
        0 <= i < s.len(),
        0 <= j < s[i].len(),
    ensures
        s.take(i).flatten().len() + s[i].len() <= s.flatten().len(),
        s.flatten()[s.take(i).flatten().len() + j] == s[i][j],
{
    vstd::seq_lib::lemma_flatten_concat(s.take(i), s.skip(i));
    assert(s.take(i) + s.skip(i) =~= s);
    assert(s.skip(i).first() == s[i]);
    assert(s.skip(i).flatten() == s[i] + s.skip(i).drop_first().flatten());
}

/// A block and the blocks before it fit in the whole.
pub proof fn lemma_flatten_block_le<A>(s: Seq<Seq<A>>, i: int)
    requires
        0 <= i < s.len(),
    ensures
        s.take(i).flatten().len() + s[i].len() <= s.flatten().len(),
{
    vstd::seq_lib::lemma_flatten_concat(s.take(i), s.skip(i));
    assert(s.take(i) + s.skip(i) =~= s);
    assert(s.skip(i).first() == s[i]);
    assert(s.skip(i).flatten() == s[i] + s.skip(i).drop_first().flatten());
}

/// The blocks before any block fit in the whole.
pub proof fn lemma_flatten_prefix_le<A>(s: Seq<Seq<A>>, i: int)
    requires
        0 <= i <= s.len(),
    ensures
        s.take(i).flatten().len() <= s.flatten().len(),
{
    if i < s.len() {
        lemma_flatten_block_le(s, i);
    } else {
        assert(s.take(i) =~= s);
    }
}

/// The blocks before block `i + 1` are those before block `i` and block `i`.
pub proof fn lemma_flatten_prefix_step<A>(s: Seq<Seq<A>>, i: int)
    requires
        0 <= i < s.len(),
    ensures
        s.take(i + 1).flatten().len() == s.take(i).flatten().len() + s[i].len(),
{
    assert(s.take(i + 1) =~= s.take(i).push(s[i]));
    s.take(i).lemma_flatten_push(s[i]);
}

/// All blocks come before the end.
pub proof fn lemma_flatten_all<A>(s: Seq<Seq<A>>)
    ensures
        s.take(s.len() as int).flatten() == s.flatten(),
{
    assert(s.take(s.len() as int) =~= s);
}

/// The size of one block of `R` products, computed without overflow when it
/// fits in a `u64`.
fn product_size(a: usize, b: usize, c: usize) -> (r: Option<u64>)
    ensures
        r matches Some(n) ==> n == a * (b * c),
        r is None ==> a * (b * c) > u64::MAX,
{
    if a == 0 {
        assert(a * (b * c) == 0);
        return Some(0);
    }
    let w = (b as u64).checked_mul(c as u64);
    match w {
        Some(w) => {
            let r = (a as u64).checked_mul(w);
            r
        },
        None => {
            assert(a * (b * c) >= b * c) by (nonlinear_arith)
                requires
                    a >= 1,
                    b * c >= 0,
            ;
            None
        },
    }
}

/// The `k`th `R` nullary of the products of unaries of length `lu`, firsts
/// of length `la` and seconds of length `lb`.
fn r_product_at(s: &Strata, lu: u64, la: u64, lb: u64, k: u64) -> (r: String)
    requires
        k < r_products(s.u(lu as int), s.n(la as int), s.n(lb as int)).len(),
        r_products(s.u(lu as int), s.n(la as int), s.n(lb as int)).len() <= u64::MAX,
    ensures
        r@ == r_products(s.u(lu as int), s.n(la as int), s.n(lb as int))[k as int].0,
        r_products(s.u(lu as int), s.n(la as int), s.n(lb as int))[k as int].1,
{
    let ghost us = s.u(lu as int);
    let ghost xs = s.n(la as int);
    let ghost ys = s.n(lb as int);
    let nu = s.u_len(lu) as u64;
    let nx = s.n_len(la) as u64;
    let ny = s.n_len(lb) as u64;
    let ghost w: int = (xs.len() * ys.len()) as int;
    assert(k < nu * w);
    assert(w > 0 && nx > 0 && ny > 0) by (nonlinear_arith)
        requires
            k < nu * w,
            w == nx * ny,
            k >= 0,
            nu >= 0,
            nx >= 0,
            ny >= 0,
    ;
    assert(r_products(us, xs, ys).len() == nu * w);
    assert(nu >= 1) by (nonlinear_arith)
        requires
            k < nu * w,
            k >= 0,
            nu >= 0,
    ;
    assert(nx * ny <= u64::MAX) by (nonlinear_arith)
        requires
            nu * w <= u64::MAX,
            w == nx * ny,
            nu >= 1,
            w >= 1,
    ;
    let wx = nx * ny;
    assert(wx == w);
    let ui = k / wx;
    let rem = k % wx;
    let fi = rem / ny;
    let si = rem % ny;
    assert(ui < nu) by (nonlinear_arith)
        requires
            k < nu * wx,
            wx > 0,
            ui == k / wx,
    ;
    assert(fi < nx) by (nonlinear_arith)
        requires
            rem < nx * ny,
            ny > 0,
            fi == rem / ny,
    ;
    let u = s.u_at(lu, ui as usize);
    let x = s.n_at(la, fi as usize);
    let y = s.n_at(lb, si as usize);
    let frozen = freeze_text(u);
    rform_text(frozen.as_str(), x, y)
}

/// The `k`th `R` unary of the products of unaries of length `lu` and
/// nullaries of length `ln`.
fn u_product_at(s: &Strata, lu: u64, ln: u64, k: u64) -> (r: String)
    requires
        k < u_products(s.u(lu as int), s.n(ln as int)).len(),
        u_products(s.u(lu as int), s.n(ln as int)).len() <= u64::MAX,
    ensures
        r@ == u_products(s.u(lu as int), s.n(ln as int))[k as int].0,
        !u_products(s.u(lu as int), s.n(ln as int))[k as int].1,
{
    let ghost us = s.u(lu as int);
    let ghost ns = s.n(ln as int);
    let nu = s.u_len(lu) as u64;
    let nn = s.n_len(ln) as u64;
    let ghost w: int = (ns.len() * 2) as int;
    assert(w > 0 && nn > 0) by (nonlinear_arith)
        requires
            k < nu * w,
            w == nn * 2,
            k >= 0,
            nu >= 0,
            nn >= 0,
    ;
    assert(u_products(us, ns).len() == nu * w);
    assert(nu >= 1) by (nonlinear_arith)
        requires
            k < nu * w,
            k >= 0,
            nu >= 0,
    ;
    assert(nn * 2 <= u64::MAX) by (nonlinear_arith)
        requires
            nu * w <= u64::MAX,
            w == nn * 2,
            nu >= 1,
            w >= 1,
    ;
    let wx = nn * 2;
    let ui = k / wx;
    let rem = k % wx;
    let ni = rem / 2;
    assert(ui < nu) by (nonlinear_arith)
        requires
            k < nu * wx,
            wx > 0,
            ui == k / wx,
    ;
    let u = s.u_at(lu, ui as usize);
    let n = s.n_at(ln, ni as usize);
    let frozen = freeze_text(u);
    proof {
        reveal_strlit("*");
    }
    if rem % 2 == 0 {
        rform_text(frozen.as_str(), n, "*")
    } else {
        rform_text(frozen.as_str(), "*", n)
    }
}

/// The number of `R` nullaries of one block, if it fits in a `u64`.
fn r_block_size(s: &Strata, length: u64, lu: u64) -> (r: Option<u64>)
    requires
        4 <= lu,
        lu + 7 <= length,
    ensures
        r matches Some(n) ==> n == r_block(*s, length as int, lu as int).len(),
        r is None ==> r_block(*s, length as int, lu as int).len() > u64::MAX,
{
    let ghost subs = r_subs(*s, length as int, lu as int);
    let count = length - 6 - lu;
    let mut e: u64 = 0;
    let mut acc: u64 = 0;
    assert(subs.take(0) =~= Seq::<Seq<(Seq<char>, bool)>>::empty());
    while e < count
        invariant
            subs == r_subs(*s, length as int, lu as int),
            4 <= lu,
            lu + 7 <= length,
            count == length - 6 - lu,
            subs.len() == count,
            e <= count,
            acc == subs.take(e as int).flatten().len(),
        decreases count - e,
    {
        let la = e + 1;
        let lb = length - 5 - lu - la;
        proof {
            lemma_flatten_prefix_step(subs, e as int);
            lemma_flatten_block_le(subs, e as int);
            lemma_flatten_prefix_le(subs, e + 1);
        }
        let size = product_size(s.u_len(lu), s.n_len(la), s.n_len(lb));
        let size = match size {
            Some(n) => n,
            None => return None,
        };
        acc = match acc.checked_add(size) {
            Some(n) => n,
            None => return None,
        };
        e = e + 1;
    }
    proof {
        lemma_flatten_all(subs);
    }
    Some(acc)
}

/// The `k`th `R` nullary of one block.
fn r_block_at(s: &Strata, length: u64, lu: u64, k: u64) -> (r: String)
    requires
        4 <= lu,
        lu + 7 <= length,
        k < r_block(*s, length as int, lu as int).len(),
        r_block(*s, length as int, lu as int).len() <= u64::MAX,
    ensures
        r@ == r_block(*s, length as int, lu as int)[k as int].0,
        r_block(*s, length as int, lu as int)[k as int].1,
{
    let ghost subs = r_subs(*s, length as int, lu as int);
    let ghost k0: int = k as int;
    let count = length - 6 - lu;
    let mut e: u64 = 0;
    let mut rest = k;
    assert(subs.take(0) =~= Seq::<Seq<(Seq<char>, bool)>>::empty());
    loop
        invariant
            subs == r_subs(*s, length as int, lu as int),
            4 <= lu,
            lu + 7 <= length,
            count == length - 6 - lu,
            subs.len() == count,
            e < count,
            k0 == k as int,
            k0 == subs.take(e as int).flatten().len() + rest,
            k0 < subs.flatten().len(),
            subs.flatten().len() <= u64::MAX,
        decreases count - e,
    {
        let la = e + 1;
        let lb = length - 5 - lu - la;
        proof {
            lemma_flatten_prefix_step(subs, e as int);
            lemma_flatten_block_le(subs, e as int);
        }
        let size = match product_size(s.u_len(lu), s.n_len(la), s.n_len(lb)) {
            Some(n) => n,
            None => {
                assert(false);
                0
            },
        };
        if rest < size {
            proof {
                lemma_flatten_at(subs, e as int, rest as int);
                assert(subs[e as int] == r_products(s.u(lu as int), s.n(la as int), s.n(lb as int)));
            }
            let r = r_product_at(s, lu, la, lb, rest);
            assert(r@ == subs.flatten()[k0 as int].0);
            return r;
        }
        rest = rest - size;
        e = e + 1;
        proof {
            if e == count {
                lemma_flatten_all(subs);
            }
        }
    }
}

/// The number of `R` nullaries of a length, if it fits in a `u64`.
fn r_part_size(s: &Strata, length: u64) -> (r: Option<u64>)
    requires
        length >= 11,
    ensures
        r matches Some(n) ==> n == r_blocks(*s, length as int).flatten().len(),
        r is None ==> r_blocks(*s, length as int).flatten().len() > u64::MAX,
{
    let ghost blocks = r_blocks(*s, length as int);
    let count = length - 10;
    let mut d: u64 = 0;
    let mut acc: u64 = 0;
    assert(blocks.take(0) =~= Seq::<Seq<(Seq<char>, bool)>>::empty());
    while d < count
        invariant
            blocks == r_blocks(*s, length as int),
            length >= 11,
            count == length - 10,
            blocks.len() == count,
            d <= count,
            acc == blocks.take(d as int).flatten().len(),
        decreases count - d,
    {
        proof {
            lemma_flatten_prefix_step(blocks, d as int);
            lemma_flatten_block_le(blocks, d as int);
            lemma_flatten_prefix_le(blocks, d + 1);
        }
        let size = match r_block_size(s, length, d + 4) {
            Some(n) => n,
            None => return None,
        };
        acc = match acc.checked_add(size) {
            Some(n) => n,
            None => return None,
        };
        d = d + 1;
    }
    proof {
        lemma_flatten_all(blocks);
    }
    Some(acc)
}

/// The `k`th `R` nullary of a length.
fn r_part_at(s: &Strata, length: u64, k: u64) -> (r: String)
    requires
        length >= 11,
        k < r_blocks(*s, length as int).flatten().len(),
        r_blocks(*s, length as int).flatten().len() <= u64::MAX,
    ensures
        r@ == r_blocks(*s, length as int).flatten()[k as int].0,
        r_blocks(*s, length as int).flatten()[k as int].1,
{
    let ghost blocks = r_blocks(*s, length as int);
    let ghost k0: int = k as int;
    let count = length - 10;
    let mut d: u64 = 0;
    let mut rest = k;
    assert(blocks.take(0) =~= Seq::<Seq<(Seq<char>, bool)>>::empty());
    loop
        invariant
            blocks == r_blocks(*s, length as int),
            length >= 11,
            count == length - 10,
            blocks.len() == count,
            d < count,
            k0 == k as int,
            k0 == blocks.take(d as int).flatten().len() + rest,
            k0 < blocks.flatten().len(),
            blocks.flatten().len() <= u64::MAX,
        decreases count - d,
    {
        proof {
            lemma_flatten_prefix_step(blocks, d as int);
            lemma_flatten_block_le(blocks, d as int);
        }
        let size = match r_block_size(s, length, d + 4) {
            Some(n) => n,
            None => {
                assert(false);
                0
            },
        };
        if rest < size {
            proof {
                lemma_flatten_at(blocks, d as int, rest as int);
                assert(blocks[d as int] == r_block(*s, length as int, d + 4));
            }
            let r = r_block_at(s, length, d + 4, rest);
            assert(r@ == blocks.flatten()[k0 as int].0);
            return r;
        }
        rest = rest - size;
        d = d + 1;
        proof {
            if d == count {
                lemma_flatten_all(blocks);
            }
        }
    }
}

/// The number of `R` unaries of a length, if it fits in a `u64`.
fn u_part_size(s: &Strata, length: u64) -> (r: Option<u64>)
    requires
        length >= 11,
    ensures
        r matches Some(n) ==> n == u_blocks(*s, length as int).flatten().len(),
        r is None ==> u_blocks(*s, length as int).flatten().len() > u64::MAX,
{
    let ghost blocks = u_blocks(*s, length as int);
    let count = length - 10;
    let mut d: u64 = 0;
    let mut acc: u64 = 0;
    assert(blocks.take(0) =~= Seq::<Seq<(Seq<char>, bool)>>::empty());
    while d < count
        invariant
            blocks == u_blocks(*s, length as int),
            length >= 11,
            count == length - 10,
            blocks.len() == count,
            d <= count,
            acc == blocks.take(d as int).flatten().len(),
        decreases count - d,
    {
        proof {
            lemma_flatten_prefix_step(blocks, d as int);
            lemma_flatten_block_le(blocks, d as int);
            lemma_flatten_prefix_le(blocks, d + 1);
        }
        let lu = d + 4;
        let ln = length - 6 - lu;
        let size = match product_size(s.u_len(lu), s.n_len(ln), 2) {
            Some(n) => n,
            None => return None,
        };
        acc = match acc.checked_add(size) {
            Some(n) => n,
            None => return None,
        };
        d = d + 1;
    }
    proof {
        lemma_flatten_all(blocks);
    }
    Some(acc)
}

/// The `k`th `R` unary of a length.
fn u_part_at(s: &Strata, length: u64, k: u64) -> (r: String)
    requires
        length >= 11,
        k < u_blocks(*s, length as int).flatten().len(),
        u_blocks(*s, length as int).flatten().len() <= u64::MAX,
    ensures
        r@ == u_blocks(*s, length as int).flatten()[k as int].0,
        !u_blocks(*s, length as int).flatten()[k as int].1,
{
    let ghost blocks = u_blocks(*s, length as int);
    let ghost k0: int = k as int;
    let count = length - 10;
    let mut d: u64 = 0;
    let mut rest = k;
    assert(blocks.take(0) =~= Seq::<Seq<(Seq<char>, bool)>>::empty());
    loop
        invariant
            blocks == u_blocks(*s, length as int),
            length >= 11,
            count == length - 10,
            blocks.len() == count,
            d < count,
            k0 == k as int,
            k0 == blocks.take(d as int).flatten().len() + rest,
            k0 < blocks.flatten().len(),
            blocks.flatten().len() <= u64::MAX,
        decreases count - d,
    {
        proof {
            lemma_flatten_prefix_step(blocks, d as int);
            lemma_flatten_block_le(blocks, d as int);
        }
        let lu = d + 4;
        let ln = length - 6 - lu;
        let size = match product_size(s.u_len(lu), s.n_len(ln), 2) {
            Some(n) => n,
            None => {
                assert(false);
                0
            },
        };
        if rest < size {
            proof {
                lemma_flatten_at(blocks, d as int, rest as int);
                assert(blocks[d as int] == u_products(s.u(lu as int), s.n(ln as int)));
            }
            let r = u_product_at(s, lu, ln, rest);
            assert(r@ == blocks.flatten()[k0 as int].0);
            return r;
        }
        rest = rest - size;
        d = d + 1;
        proof {
            if d == count {
                lemma_flatten_all(blocks);
            }
        }
    }
}

/// The number of forms of length `length`, if it fits in a `u64`.
pub fn stratum_size(s: &Strata, length: u64) -> (r: Option<u64>)
    ensures
        r matches Some(n) ==> n == stratum_items(*s, length as int).len(),
        r is None ==> stratum_items(*s, length as int).len() > u64::MAX,
{
    let ghost items = stratum_items(*s, length as int);
    let p1: u64 = if length == 1 {
        1
    } else {
        0
    };
    let p2: u64 = if length >= 4 {
        s.n_len(length - 3) as u64
    } else {
        0
    };
    let p3: u64 = if length >= 11 {
        match r_part_size(s, length) {
            Some(n) => n,
            None => return None,
        }
    } else {
        0
    };
    let p4: u64 = if length == 4 {
        1
    } else {
        0
    };
    let p5: u64 = if length >= 7 {
        s.u_len(length - 3) as u64
    } else {
        0
    };
    let p6: u64 = if length >= 11 {
        match u_part_size(s, length) {
            Some(n) => n,
            None => return None,
        }
    } else {
        0
    };
    let total = (p1 as u128) + (p2 as u128) + (p3 as u128) + (p4 as u128) + (p5 as u128) + (
    p6 as u128);
    assert(total == items.len());
    if total > u64::MAX as u128 {
        None
    } else {
        Some(total as u64)
    }
}

/// The `k`th form of length `length` in the order of the sweep, and whether
/// it is a nullary.
pub fn stratum_item(s: &Strata, length: u64, k: u64) -> (r: (String, bool))
    requires
        k < stratum_items(*s, length as int).len(),
        stratum_items(*s, length as int).len() <= u64::MAX,
    ensures
        (r.0@, r.1) == stratum_items(*s, length as int)[k as int],
{
    let ghost items = stratum_items(*s, length as int);
    let mut rest = k;
    proof {
        reveal_strlit("0");
        reveal_strlit("^(*)");
    }
    if length == 1 {
        if rest == 0 {
            return ("0".to_string(), true);
        }
        rest = rest - 1;
    }
    let ghost a1: int = if length == 1 {
        1
    } else {
        0
    };
    assert(k == a1 + rest);
    if length >= 4 {
        let n2 = s.n_len(length - 3) as u64;
        if rest < n2 {
            return (wrap_text(s.n_at(length - 3, rest as usize)), true);
        }
        rest = rest - n2;
    }
    let ghost a2: int = a1 + if length >= 4 {
        s.n(length - 3).len() as int
    } else {
        0
    };
    assert(k == a2 + rest);
    if length >= 11 {
        let n3 = match r_part_size(s, length) {
            Some(n) => n,
            None => {
                assert(false);
                0
            },
        };
        if rest < n3 {
            return (r_part_at(s, length, rest), true);
        }
        rest = rest - n3;
    }
    let ghost a3: int = a2 + if length >= 11 {
        r_blocks(*s, length as int).flatten().len() as int
    } else {
        0
    };
    assert(k == a3 + rest);
    if length == 4 {
        if rest == 0 {
            return ("^(*)".to_string(), false);
        }
        rest = rest - 1;
    }
    let ghost a4: int = a3 + if length == 4 {
        1int
    } else {
        0
    };
    assert(k == a4 + rest);
    if length >= 7 {
        let n5 = s.u_len(length - 3) as u64;
        if rest < n5 {
            return (wrap_text(s.u_at(length - 3, rest as usize)), false);
        }
        rest = rest - n5;
    }
    let ghost a5: int = a4 + if length >= 7 {
        s.u(length - 3).len() as int
    } else {
        0
    };
    assert(k == a5 + rest);
    assert(length >= 11);
    (u_part_at(s, length, rest), false)
}

/// Whether every form of a list of items is ASCII.
pub open spec fn items_ascii(items: Seq<(Seq<char>, bool)>) -> bool {
    forall|k: int| 0 <= k < items.len() ==> all_ascii(#[trigger] items[k].0)
}

/// Flattening blocks of ASCII items gives ASCII items.
proof fn lemma_flatten_ascii(bs: Seq<Seq<(Seq<char>, bool)>>)
    requires
        forall|i: int| 0 <= i < bs.len() ==> items_ascii(#[trigger] bs[i]),
    ensures
        items_ascii(bs.flatten()),
    decreases bs.len(),
{
    if bs.len() > 0 {
        lemma_flatten_ascii(bs.drop_first());
        assert(items_ascii(bs[0]));
        let f = bs.flatten();
        assert(f == bs.first() + bs.drop_first().flatten());
        assert forall|k: int| 0 <= k < f.len() implies all_ascii(#[trigger] f[k].0) by {
            if k < bs[0].len() {
                assert(f[k] == bs[0][k]);
            } else {
                assert(f[k] == bs.drop_first().flatten()[k - bs[0].len()]);
            }
        }
    }
}

/// Where in a product of `a` blocks of `w` items index `k` falls.
proof fn lemma_product_index(k: int, a: int, w: int)
    requires
        0 <= k < a * w,
        a >= 0,
        w > 0,
    ensures
        0 <= k / w < a,
        0 <= k % w < w,
{
    assert(0 <= k / w < a) by (nonlinear_arith)
        requires
            0 <= k < a * w,
            w > 0,
    ;
}

proof fn lemma_r_products_ascii(us: Seq<Seq<char>>, xs: Seq<Seq<char>>, ys: Seq<Seq<char>>)
    requires
        forall|i: int| 0 <= i < us.len() ==> all_ascii(#[trigger] us[i]),
        forall|i: int| 0 <= i < xs.len() ==> all_ascii(#[trigger] xs[i]),
        forall|i: int| 0 <= i < ys.len() ==> all_ascii(#[trigger] ys[i]),
    ensures
        items_ascii(r_products(us, xs, ys)),
{
    let p = r_products(us, xs, ys);
    let w: int = (xs.len() * ys.len()) as int;
    assert forall|k: int| 0 <= k < p.len() implies all_ascii(#[trigger] p[k].0) by {
        assert(w > 0) by (nonlinear_arith)
            requires
                0 <= k < us.len() * w,
        ;
        lemma_product_index(k, us.len() as int, w);
        let r = k % w;
        assert(ys.len() > 0) by (nonlinear_arith)
            requires
                w == xs.len() * ys.len(),
                w > 0,
        ;
        lemma_product_index(r, xs.len() as int, ys.len() as int);
        let u = us[k / w];
        let x = xs[r / ys.len() as int];
        let y = ys[r % ys.len() as int];
        lemma_ascii_forms(u, x, y);
        lemma_ascii_forms(freeze(u), x, y);
    }
}

proof fn lemma_u_products_ascii(us: Seq<Seq<char>>, ns: Seq<Seq<char>>)
    requires
        forall|i: int| 0 <= i < us.len() ==> all_ascii(#[trigger] us[i]),
        forall|i: int| 0 <= i < ns.len() ==> all_ascii(#[trigger] ns[i]),
    ensures
        items_ascii(u_products(us, ns)),
{
    let p = u_products(us, ns);
    let w: int = (ns.len() * 2) as int;
    assert forall|k: int| 0 <= k < p.len() implies all_ascii(#[trigger] p[k].0) by {
        assert(w > 0) by (nonlinear_arith)
            requires
                0 <= k < us.len() * w,
        ;
        lemma_product_index(k, us.len() as int, w);
        let r = k % w;
        lemma_product_index(r, ns.len() as int, 2);
        let u = us[k / w];
        let n = ns[r / 2];
        crate::grammar::lemma_literals_ascii();
        lemma_ascii_forms(u, n, n);
        lemma_ascii_forms(freeze(u), n, "*"@);
        lemma_ascii_forms(freeze(u), "*"@, n);
    }
}

/// Every form a sweep synthesizes from ASCII strata is ASCII.
pub proof fn lemma_stratum_items_ascii(s: Strata, length: int, k: int)
    requires
        s.all_ascii(),
        0 <= k < stratum_items(s, length).len(),
    ensures
        all_ascii(stratum_items(s, length)[k].0),
{
    crate::grammar::lemma_literals_ascii();
    let items = stratum_items(s, length);
    if length >= 4 {
        let p2 = s.n(length - 3).map_values(|x: Seq<char>| (wrap(x), true));
        assert forall|i: int| 0 <= i < p2.len() implies all_ascii(#[trigger] p2[i].0) by {
            lemma_ascii_forms(s.n(length - 3)[i], "0"@, "0"@);
        }
    }
    if length >= 7 {
        let p5 = s.u(length - 3).map_values(|x: Seq<char>| (wrap(x), false));
        assert forall|i: int| 0 <= i < p5.len() implies all_ascii(#[trigger] p5[i].0) by {
            lemma_ascii_forms(s.u(length - 3)[i], "0"@, "0"@);
        }
    }
    if length >= 11 {
        let rb = r_blocks(s, length);
        assert forall|d: int| 0 <= d < rb.len() implies items_ascii(#[trigger] rb[d]) by {
            let subs = r_subs(s, length, d + 4);
            assert forall|e: int| 0 <= e < subs.len() implies items_ascii(#[trigger] subs[e]) by {
                lemma_r_products_ascii(s.u(d + 4), s.n(e + 1), s.n(length - 5 - (d + 4) - (e + 1)));
            }
            lemma_flatten_ascii(subs);
        }
        lemma_flatten_ascii(rb);
        let ub = u_blocks(s, length);
        assert forall|d: int| 0 <= d < ub.len() implies items_ascii(#[trigger] ub[d]) by {
            lemma_u_products_ascii(s.u(d + 4), s.n(length - 6 - (d + 4)));
        }
        lemma_flatten_ascii(ub);
    }
}

/// The product of `us`, `xs`, `ys` holds `R(u#,x,y)` for each of their
/// entries, at the position the nested loops give it.
proof fn lemma_r_products_has(us: Seq<Seq<char>>, xs: Seq<Seq<char>>, ys: Seq<Seq<char>>, i: int, j: int, k: int)
    requires
        0 <= i < us.len(),
        0 <= j < xs.len(),
        0 <= k < ys.len(),
    ensures
        ({
            let w = xs.len() * ys.len();
            let idx = i * w + j * ys.len() + k;
            &&& 0 <= idx < r_products(us, xs, ys).len()
            &&& r_products(us, xs, ys)[idx] == (rform(freeze(us[i]), xs[j], ys[k]), true)
        }),
{
    let w: int = (xs.len() * ys.len()) as int;
    let ny = ys.len() as int;
    let r = j * ny + k;
    assert(0 <= r < w) by (nonlinear_arith)
        requires
            0 <= j < xs.len(),
            0 <= k < ny,
            w == xs.len() * ny,
            r == j * ny + k,
    ;
    let idx = i * w + r;
    assert(0 <= idx < us.len() * w) by (nonlinear_arith)
        requires
            0 <= i < us.len(),
            0 <= r < w,
            idx == i * w + r,
    ;
    vstd::arithmetic::div_mod::lemma_fundamental_div_mod_converse(idx, w, i, r);
    vstd::arithmetic::div_mod::lemma_fundamental_div_mod_converse(r, ny, j, k);
    assert(i * w + j * ny + k == idx);
}

/// The product of `us` and `ns` holds `R(u#,n,*)` and `R(u#,*,n)` for each of
/// their entries, at the positions the nested loops give them.
proof fn lemma_u_products_has(us: Seq<Seq<char>>, ns: Seq<Seq<char>>, i: int, j: int)
    requires
        0 <= i < us.len(),
        0 <= j < ns.len(),
    ensures
        ({
            let w = ns.len() * 2;
            let idx = i * w + j * 2;
            &&& 0 <= idx && idx + 1 < u_products(us, ns).len()
            &&& u_products(us, ns)[idx] == (rform(freeze(us[i]), ns[j], "*"@), false)
            &&& u_products(us, ns)[idx + 1] == (rform(freeze(us[i]), "*"@, ns[j]), false)
        }),
{
    let w: int = (ns.len() * 2) as int;
    let idx = i * w + j * 2;
    assert(0 <= idx && idx + 1 < us.len() * w) by (nonlinear_arith)
        requires
            0 <= i < us.len(),
            0 <= j < ns.len(),
            w == ns.len() * 2,
            idx == i * w + j * 2,
    ;
    vstd::arithmetic::div_mod::lemma_fundamental_div_mod_converse(idx, w, i, j * 2);
    vstd::arithmetic::div_mod::lemma_fundamental_div_mod_converse(idx + 1, w, i, j * 2 + 1);
    vstd::arithmetic::div_mod::lemma_fundamental_div_mod_converse(j * 2, 2, j, 0);
    vstd::arithmetic::div_mod::lemma_fundamental_div_mod_converse(j * 2 + 1, 2, j, 1);
}

/// Every item of a block is an item of the flattened blocks.
proof fn lemma_flatten_has<A>(bs: Seq<Seq<A>>, i: int, j: int)
    requires
        0 <= i < bs.len(),
        0 <= j < bs[i].len(),
    ensures
        bs.flatten().contains(bs[i][j]),
{
    lemma_flatten_at(bs, i, j);
    lemma_flatten_block_le(bs, i);
    assert(bs.flatten()[bs.take(i).flatten().len() + j] == bs[i][j]);
}

/// The sweep is exhaustive: a stratum holds every form the grammar builds
/// with its length from the shorter strata — the nullaries `0`, `^(N)` and
/// `R(U#,N,N)`, and the unaries `^(*)`, `^(U)`, `R(U#,N,*)` and `R(U#,*,N)`,
/// where the lengths of the parts add up to the length of the stratum.
pub proof fn law_stratum_is_exhaustive(s: Strata, length: int)
    requires
        length >= 1,
    ensures
        length == 1 ==> stratum_items(s, length).contains(("0"@, true)),
        forall|i: int|
            length >= 4 && 0 <= i < s.n(length - 3).len() ==> stratum_items(s, length).contains(
                (wrap(#[trigger] s.n(length - 3)[i]), true),
            ),
        forall|lu: int, la: int, i: int, j: int, k: int|
            4 <= lu && 1 <= la && lu + la <= length - 6 && 0 <= i < s.u(lu).len() && 0 <= j < s.n(
                la,
            ).len() && 0 <= k < s.n(length - 5 - lu - la).len() ==> stratum_items(s, length).contains(
                (rform(freeze(#[trigger] s.u(lu)[i]), #[trigger] s.n(la)[j], #[trigger] s.n(length - 5 - lu - la)[k]), true),
            ),
        length == 4 ==> stratum_items(s, length).contains(("^(*)"@, false)),
        forall|i: int|
            length >= 7 && 0 <= i < s.u(length - 3).len() ==> stratum_items(s, length).contains(
                (wrap(#[trigger] s.u(length - 3)[i]), false),
            ),
        forall|lu: int, i: int, j: int|
            4 <= lu && lu <= length - 7 && 0 <= i < s.u(lu).len() && 0 <= j < s.n(length - 6 - lu).len()
                ==> stratum_items(s, length).contains(
                (rform(freeze(#[trigger] s.u(lu)[i]), #[trigger] s.n(length - 6 - lu)[j], "*"@), false),
            ) && stratum_items(s, length).contains(
                (rform(freeze(s.u(lu)[i]), "*"@, s.n(length - 6 - lu)[j]), false),
            ),
{
    let items = stratum_items(s, length);
    let p1: Seq<(Seq<char>, bool)> = if length == 1 {
        seq![("0"@, true)]
    } else {
        Seq::empty()
    };
    let p2: Seq<(Seq<char>, bool)> = if length >= 4 {
        s.n(length - 3).map_values(|x: Seq<char>| (wrap(x), true))
    } else {
        Seq::empty()
    };
    let p3: Seq<(Seq<char>, bool)> = if length >= 11 {
        r_blocks(s, length).flatten()
    } else {
        Seq::empty()
    };
    let p4: Seq<(Seq<char>, bool)> = if length == 4 {
        seq![("^(*)"@, false)]
    } else {
        Seq::empty()
    };
    let p5: Seq<(Seq<char>, bool)> = if length >= 7 {
        s.u(length - 3).map_values(|x: Seq<char>| (wrap(x), false))
    } else {
        Seq::empty()
    };
    let p6: Seq<(Seq<char>, bool)> = if length >= 11 {
        u_blocks(s, length).flatten()
    } else {
        Seq::empty()
    };
    assert(items == p1 + p2 + p3 + p4 + p5 + p6);
    let o2 = p1.len() as int;
    let o3 = o2 + p2.len();
    let o4 = o3 + p3.len();
    let o5 = o4 + p4.len();
    let o6 = o5 + p5.len();
    if length == 1 {
        assert(items[0] == ("0"@, true));
    }
    assert forall|i: int|
        length >= 4 && 0 <= i < s.n(length - 3).len() implies items.contains(
        (wrap(#[trigger] s.n(length - 3)[i]), true),
    ) by {
        assert(items[o2 + i] == p2[i]);
    }
    assert forall|lu: int, la: int, i: int, j: int, k: int|
        4 <= lu && 1 <= la && lu + la <= length - 6 && 0 <= i < s.u(lu).len() && 0 <= j < s.n(
            la,
        ).len() && 0 <= k < s.n(length - 5 - lu - la).len() implies items.contains(
        (rform(freeze(#[trigger] s.u(lu)[i]), #[trigger] s.n(la)[j], #[trigger] s.n(length - 5 - lu - la)[k]), true),
    ) by {
        let lb = length - 5 - lu - la;
        let target = (rform(freeze(s.u(lu)[i]), s.n(la)[j], s.n(lb)[k]), true);
        lemma_r_products_has(s.u(lu), s.n(la), s.n(lb), i, j, k);
        let subs = r_subs(s, length, lu);
        let e = la - 1;
        assert(subs[e] == r_products(s.u(lu), s.n(la), s.n(lb)));
        let idx = i * (s.n(la).len() * s.n(lb).len()) + j * s.n(lb).len() + k;
        assert(subs[e][idx] == target);
        lemma_flatten_has(subs, e, idx);
        let blk = r_blocks(s, length);
        assert(blk[lu - 4] == subs.flatten());
        let q = choose|q: int| 0 <= q < subs.flatten().len() && subs.flatten()[q] == target;
        lemma_flatten_has(blk, lu - 4, q);
        let t = choose|t: int| 0 <= t < p3.len() && p3[t] == target;
        assert(items[o3 + t] == target);
    }
    if length == 4 {
        assert(items[o4] == ("^(*)"@, false));
    }
    assert forall|i: int|
        length >= 7 && 0 <= i < s.u(length - 3).len() implies items.contains(
        (wrap(#[trigger] s.u(length - 3)[i]), false),
    ) by {
        assert(items[o5 + i] == p5[i]);
    }
    assert forall|lu: int, i: int, j: int|
        4 <= lu && lu <= length - 7 && 0 <= i < s.u(lu).len() && 0 <= j < s.n(length - 6 - lu).len()
        implies items.contains(
        (rform(freeze(#[trigger] s.u(lu)[i]), #[trigger] s.n(length - 6 - lu)[j], "*"@), false),
    ) && items.contains((rform(freeze(s.u(lu)[i]), "*"@, s.n(length - 6 - lu)[j]), false)) by {
        let ln = length - 6 - lu;
        lemma_u_products_has(s.u(lu), s.n(ln), i, j);
        let blk = u_blocks(s, length);
        assert(blk[lu - 4] == u_products(s.u(lu), s.n(ln)));
        let idx = i * (s.n(ln).len() * 2) + j * 2;
        let first = (rform(freeze(s.u(lu)[i]), s.n(ln)[j], "*"@), false);
        let second = (rform(freeze(s.u(lu)[i]), "*"@, s.n(ln)[j]), false);
        lemma_flatten_has(blk, lu - 4, idx);
        lemma_flatten_has(blk, lu - 4, idx + 1);
        let t1 = choose|t: int| 0 <= t < p6.len() && p6[t] == first;
        let t2 = choose|t: int| 0 <= t < p6.len() && p6[t] == second;
        assert(items[o6 + t1] == first);
        assert(items[o6 + t2] == second);
    }
}

/// Whether every form of a stratum list has the given length.
pub open spec fn all_of_length(forms: Seq<Seq<char>>, l: int) -> bool {
    forall|i: int| 0 <= i < forms.len() ==> (#[trigger] forms[i]).len() == l
}

/// Whether every form of the strata has the length of its stratum.
pub open spec fn lengths_match(s: Strata) -> bool {
    &&& forall|l: int| #[trigger] all_of_length(s.n(l), l)
    &&& forall|l: int| #[trigger] all_of_length(s.u(l), l)
}

/// Whether every item of a list has the given length.
pub open spec fn items_of_length(items: Seq<(Seq<char>, bool)>, l: int) -> bool {
    forall|k: int| 0 <= k < items.len() ==> (#[trigger] items[k]).0.len() == l
}

proof fn lemma_flatten_of_length(bs: Seq<Seq<(Seq<char>, bool)>>, l: int)
    requires
        forall|i: int| 0 <= i < bs.len() ==> items_of_length(#[trigger] bs[i], l),
    ensures
        items_of_length(bs.flatten(), l),
    decreases bs.len(),
{
    if bs.len() > 0 {
        lemma_flatten_of_length(bs.drop_first(), l);
        assert(items_of_length(bs[0], l));
        let f = bs.flatten();
        assert(f == bs.first() + bs.drop_first().flatten());
        assert forall|k: int| 0 <= k < f.len() implies (#[trigger] f[k]).0.len() == l by {
            if k < bs[0].len() {
                assert(f[k] == bs[0][k]);
            } else {
                assert(f[k] == bs.drop_first().flatten()[k - bs[0].len()]);
            }
        }
    }
}

/// Every form a sweep synthesizes has the length of its stratum, when the
/// shorter strata hold forms of their own lengths.
pub proof fn law_stratum_forms_have_length(s: Strata, length: int)
    requires
        lengths_match(s),
        length >= 1,
    ensures
        items_of_length(stratum_items(s, length), length),
{
    lemma_form_lengths("0"@, "0"@, "0"@);
    let items = stratum_items(s, length);
    let p1: Seq<(Seq<char>, bool)> = if length == 1 {
        seq![("0"@, true)]
    } else {
        Seq::empty()
    };
    let p2: Seq<(Seq<char>, bool)> = if length >= 4 {
        s.n(length - 3).map_values(|x: Seq<char>| (wrap(x), true))
    } else {
        Seq::empty()
    };
    let p3: Seq<(Seq<char>, bool)> = if length >= 11 {
        r_blocks(s, length).flatten()
    } else {
        Seq::empty()
    };
    let p4: Seq<(Seq<char>, bool)> = if length == 4 {
        seq![("^(*)"@, false)]
    } else {
        Seq::empty()
    };
    let p5: Seq<(Seq<char>, bool)> = if length >= 7 {
        s.u(length - 3).map_values(|x: Seq<char>| (wrap(x), false))
    } else {
        Seq::empty()
    };
    let p6: Seq<(Seq<char>, bool)> = if length >= 11 {
        u_blocks(s, length).flatten()
    } else {
        Seq::empty()
    };
    assert(items == p1 + p2 + p3 + p4 + p5 + p6);
    assert(items_of_length(p2, length)) by {
        assert forall|k: int| 0 <= k < p2.len() implies (#[trigger] p2[k]).0.len() == length by {
            assert(all_of_length(s.n(length - 3), length - 3));
            lemma_form_lengths(s.n(length - 3)[k], "0"@, "0"@);
        }
    }
    assert(items_of_length(p5, length)) by {
        assert forall|k: int| 0 <= k < p5.len() implies (#[trigger] p5[k]).0.len() == length by {
            assert(all_of_length(s.u(length - 3), length - 3));
            lemma_form_lengths(s.u(length - 3)[k], "0"@, "0"@);
        }
    }
    if length >= 11 {
        let rb = r_blocks(s, length);
        assert forall|d: int| 0 <= d < rb.len() implies items_of_length(#[trigger] rb[d], length) by {
            let lu = d + 4;
            let subs = r_subs(s, length, lu);
            assert forall|e: int| 0 <= e < subs.len() implies items_of_length(#[trigger] subs[e], length) by {
                let la = e + 1;
                let lb = length - 5 - lu - la;
                let us = s.u(lu);
                let xs = s.n(la);
                let ys = s.n(lb);
                let p = r_products(us, xs, ys);
                assert(subs[e] == p);
                assert(all_of_length(us, lu));
                assert(all_of_length(xs, la));
                assert(all_of_length(ys, lb));
                let w: int = (xs.len() * ys.len()) as int;
                assert forall|k: int| 0 <= k < p.len() implies (#[trigger] p[k]).0.len() == length by {
                    assert(w > 0) by (nonlinear_arith)
                        requires
                            0 <= k < us.len() * w,
                    ;
                    lemma_product_index(k, us.len() as int, w);
                    assert(ys.len() > 0) by (nonlinear_arith)
                        requires
                            w == xs.len() * ys.len(),
                            w > 0,
                    ;
                    lemma_product_index(k % w, xs.len() as int, ys.len() as int);
                    let u = us[k / w];
                    let x = xs[(k % w) / ys.len() as int];
                    let y = ys[(k % w) % ys.len() as int];
                    lemma_form_lengths(u, x, y);
                    lemma_form_lengths(freeze(u), x, y);
                }
            }
            lemma_flatten_of_length(subs, length);
        }
        lemma_flatten_of_length(rb, length);
        let ub = u_blocks(s, length);
        assert forall|d: int| 0 <= d < ub.len() implies items_of_length(#[trigger] ub[d], length) by {
            let lu = d + 4;
            let ln = length - 6 - lu;
            let us = s.u(lu);
            let ns = s.n(ln);
            let p = u_products(us, ns);
            assert(all_of_length(us, lu));
            assert(all_of_length(ns, ln));
            let w: int = (ns.len() * 2) as int;
            assert forall|k: int| 0 <= k < p.len() implies (#[trigger] p[k]).0.len() == length by {
                assert(w > 0) by (nonlinear_arith)
                    requires
                        0 <= k < us.len() * w,
                ;
                lemma_product_index(k, us.len() as int, w);
                lemma_product_index(k % w, ns.len() as int, 2);
                let u = us[k / w];
                let n = ns[(k % w) / 2];
                lemma_form_lengths(freeze(u), n, "*"@);
                lemma_form_lengths(freeze(u), "*"@, n);
                lemma_form_lengths(u, n, n);
            }
        }
        lemma_flatten_of_length(ub, length);
    }
    assert forall|k: int| 0 <= k < items.len() implies (#[trigger] items[k]).0.len() == length by {
        let o2 = p1.len() as int;
        let o3 = o2 + p2.len();
        let o4 = o3 + p3.len();
        let o5 = o4 + p4.len();
        let o6 = o5 + p5.len();
        if k < o2 {
            assert(items[k] == p1[k]);
        } else if k < o3 {
            assert(items[k] == p2[k - o2]);
        } else if k < o4 {
            assert(items[k] == p3[k - o3]);
        } else if k < o5 {
            assert(items[k] == p4[k - o4]);
        } else if k < o6 {
            assert(items[k] == p5[k - o5]);
        } else {
            assert(items[k] == p6[k - o6]);
        }
    }
}

} // verus!
