//! Symbol ranking: an adaptive move-toward-front transform over the LZ
//! symbol alphabet, with an escape code for one "unlikely" symbol.
use vstd::prelude::*;
use crate::SYMRANK_NUM_SYMBOLS;

verus! {

/// For each rank, the rank that a symbol found there moves up to.
pub const SYMRANK_NEXT_ARRAY: [u16; 389] = [
    0, 0, 1, 2, 3, 4, 5, 6, 7, 8, 9, 10, 11, 12, 13, 14,
    15, 16, 17, 18, 19, 20, 21, 22, 23, 24, 25, 26, 27, 28, 29, 30,
    31, 32, 33, 34, 35, 35, 36, 37, 38, 39, 40, 41, 42, 43, 44, 45,
    46, 47, 48, 48, 49, 50, 51, 52, 53, 54, 55, 56, 57, 57, 58, 59,
    60, 61, 62, 63, 64, 64, 65, 66, 67, 68, 69, 70, 71, 71, 72, 73,
    74, 75, 76, 76, 77, 78, 79, 80, 81, 81, 82, 83, 84, 85, 86, 86,
    87, 88, 89, 90, 90, 91, 92, 93, 94, 94, 95, 96, 97, 98, 98, 99,
    100, 101, 102, 102, 103, 104, 105, 105, 106, 107, 108, 108, 109, 110, 111, 111,
    112, 113, 114, 114, 115, 116, 117, 117, 118, 119, 119, 120, 121, 122, 122, 123,
    124, 125, 125, 126, 127, 127, 128, 129, 129, 130, 131, 131, 132, 133, 134, 134,
    135, 136, 136, 137, 138, 138, 139, 140, 140, 141, 142, 142, 143, 144, 144, 145,
    145, 146, 147, 147, 148, 149, 149, 150, 151, 151, 152, 152, 153, 154, 154, 155,
    156, 156, 157, 157, 158, 159, 159, 160, 160, 161, 162, 162, 163, 163, 164, 164,
    165, 166, 166, 167, 167, 168, 168, 169, 170, 170, 171, 171, 172, 172, 173, 174,
    174, 175, 175, 176, 176, 177, 177, 178, 178, 179, 179, 180, 181, 181, 182, 182,
    183, 183, 184, 184, 185, 185, 186, 186, 187, 187, 188, 188, 189, 189, 190, 190,
    191, 191, 192, 192, 193, 193, 194, 194, 195, 195, 195, 196, 196, 197, 197, 198,
    198, 199, 199, 200, 200, 201, 201, 201, 202, 202, 203, 203, 204, 204, 205, 205,
    205, 206, 206, 207, 207, 208, 208, 208, 209, 209, 210, 210, 211, 211, 211, 212,
    212, 213, 213, 213, 214, 214, 215, 215, 215, 216, 216, 217, 217, 217, 218, 218,
    218, 219, 219, 220, 220, 220, 221, 221, 221, 222, 222, 222, 223, 223, 224, 224,
    224, 225, 225, 225, 226, 226, 226, 227, 227, 227, 228, 228, 228, 229, 229, 229,
    230, 230, 230, 231, 231, 231, 232, 232, 232, 233, 233, 233, 234, 234, 234, 235,
    235, 235, 235, 236, 236, 236, 237, 237, 237, 238, 238, 238, 238, 239, 239, 239,
    240, 240, 240, 240, 241,
];

/// The rank that a symbol at rank `i` moves up to; never below the front.
pub closed spec fn next_rank(i: int) -> int {
    let t = SYMRANK_NEXT_ARRAY@[i] as int;
    if t <= i { t } else { i }
}

/// `values` and `indices` are inverse permutations of `0..SYMRANK_NUM_SYMBOLS`.
pub open spec fn is_rank_perm(values: Seq<u16>, indices: Seq<u16>) -> bool {
    &&& values.len() == SYMRANK_NUM_SYMBOLS
    &&& indices.len() == SYMRANK_NUM_SYMBOLS
    &&& forall|i: int| 0 <= i < SYMRANK_NUM_SYMBOLS ==> (#[trigger] values[i] as int) < SYMRANK_NUM_SYMBOLS
        && indices[values[i] as int] == i
    &&& forall|v: int| 0 <= v < SYMRANK_NUM_SYMBOLS ==> (#[trigger] indices[v] as int) < SYMRANK_NUM_SYMBOLS
        && values[indices[v] as int] == v
}

/// Exchanging the symbols at ranks `a` and `b`.
pub open spec fn swap_ranks(values: Seq<u16>, indices: Seq<u16>, a: int, b: int) -> (Seq<u16>, Seq<u16>) {
    let va = values[a];
    let vb = values[b];
    (values.update(a, vb).update(b, va), indices.update(va as int, b as u16).update(vb as int, a as u16))
}

/// The state after the symbol at rank `i` is used: it moves up to
/// `next_rank(i)`, far ranks in two steps through the midpoint.
pub open spec fn rank_update(values: Seq<u16>, indices: Seq<u16>, i: int) -> (Seq<u16>, Seq<u16>) {
    let ni = next_rank(i);
    if i < 40 {
        swap_ranks(values, indices, i, ni)
    } else {
        let mid = (i + ni) / 2;
        let s = swap_ranks(values, indices, i, mid);
        swap_ranks(s.0, s.1, mid, ni)
    }
}

/// The code sent for a symbol at rank `i` when the unlikely symbol is at rank `iu`.
pub open spec fn rank_code(i: int, iu: int) -> int {
    if i == iu {
        SYMRANK_NUM_SYMBOLS - 1
    } else if i > iu {
        i - 1
    } else {
        i
    }
}

/// The rank that the code `c` stands for when the unlikely symbol is at rank `iu`.
pub open spec fn code_rank(c: int, iu: int) -> int {
    if c == SYMRANK_NUM_SYMBOLS - 1 {
        iu
    } else if c >= iu {
        c + 1
    } else {
        c
    }
}

/// Swapping two ranks keeps the two tables inverse permutations.
pub proof fn lemma_swap_ranks_perm(values: Seq<u16>, indices: Seq<u16>, a: int, b: int)
    requires
        is_rank_perm(values, indices),
        0 <= a < SYMRANK_NUM_SYMBOLS,
        0 <= b < SYMRANK_NUM_SYMBOLS,
    ensures
        is_rank_perm(swap_ranks(values, indices, a, b).0, swap_ranks(values, indices, a, b).1),
{
    let (nv, ni) = swap_ranks(values, indices, a, b);
    let va = values[a] as int;
    let vb = values[b] as int;
    assert forall|i: int| 0 <= i < SYMRANK_NUM_SYMBOLS implies (#[trigger] nv[i] as int) < SYMRANK_NUM_SYMBOLS
        && ni[nv[i] as int] == i by {
        if i != a && i != b {
            assert(values[i] as int != va && values[i] as int != vb);
        }
    }
    assert forall|v: int| 0 <= v < SYMRANK_NUM_SYMBOLS implies (#[trigger] ni[v] as int) < SYMRANK_NUM_SYMBOLS
        && nv[ni[v] as int] == v by {
        if v != va && v != vb {
            assert(indices[v] as int != a && indices[v] as int != b);
        }
    }
}

/// Moving a symbol up keeps the two tables inverse permutations.
pub proof fn lemma_rank_update_perm(values: Seq<u16>, indices: Seq<u16>, i: int)
    requires
        is_rank_perm(values, indices),
        0 <= i < SYMRANK_NUM_SYMBOLS,
    ensures
        is_rank_perm(rank_update(values, indices, i).0, rank_update(values, indices, i).1),
{
    let ni = next_rank(i);
    if i < 40 {
        lemma_swap_ranks_perm(values, indices, i, ni);
    } else {
        let mid = (i + ni) / 2;
        lemma_swap_ranks_perm(values, indices, i, mid);
        let s = swap_ranks(values, indices, i, mid);
        lemma_swap_ranks_perm(s.0, s.1, mid, ni);
    }
}

/// Every rank but the front sends a used symbol strictly forward.
pub proof fn lemma_next_array_forward()
    ensures
        SYMRANK_NEXT_ARRAY@[0] == 0,
        forall|i: int| 0 < i < SYMRANK_NUM_SYMBOLS ==> #[trigger] SYMRANK_NEXT_ARRAY@[i] < i,
{
    assert(forall|i: int| 0 < i < 389 ==> #[trigger] SYMRANK_NEXT_ARRAY@[i] < i);
}

/// Using the symbol at rank `i` moves it to rank `SYMRANK_NEXT_ARRAY[i]`,
/// which is strictly nearer the front unless `i` is the front itself, so
/// a symbol used again is sent as a smaller rank.
pub proof fn law_used_symbol_moves_forward(values: Seq<u16>, indices: Seq<u16>, i: int)
    requires
        is_rank_perm(values, indices),
        0 <= i < SYMRANK_NUM_SYMBOLS,
    ensures
        rank_update(values, indices, i).1[values[i] as int] == SYMRANK_NEXT_ARRAY@[i] as int,
        rank_update(values, indices, i).0[SYMRANK_NEXT_ARRAY@[i] as int] == values[i],
        i > 0 ==> (SYMRANK_NEXT_ARRAY@[i] as int) < i,
        i == 0 ==> rank_update(values, indices, i) == (values, indices),
{
    lemma_next_array_forward();
    let ni = SYMRANK_NEXT_ARRAY@[i] as int;
    assert(next_rank(i) == ni);
    let v = values[i];
    if i < 40 {
        if i == 0 {
            assert(values.update(0, values[0]).update(0, values[0]) =~= values);
            assert(indices.update(v as int, 0u16).update(v as int, 0u16) =~= indices);
        }
    } else {
        let mid = (i + ni) / 2;
        let s = swap_ranks(values, indices, i, mid);
        assert(s.0[mid] == v);
        assert(s.1[v as int] == mid);
    }
}

/// What else moves when the symbol at rank `i` moves to rank
/// `n = SYMRANK_NEXT_ARRAY[i]`: from a near rank (below 40) the symbol at
/// `n` takes rank `i`; from a far rank the symbol at `n` moves to the
/// midpoint `(i + n) / 2` and the one at the midpoint takes rank `i`.
/// Every other rank keeps its symbol.
pub proof fn law_rank_update_shifts(values: Seq<u16>, indices: Seq<u16>, i: int)
    requires
        is_rank_perm(values, indices),
        0 <= i < SYMRANK_NUM_SYMBOLS,
    ensures
        ({
            let n = SYMRANK_NEXT_ARRAY@[i] as int;
            let mid = (i + n) / 2;
            let r = rank_update(values, indices, i).0;
            &&& r.len() == values.len()
            &&& r[n] == values[i]
            &&& i < 40 ==> r[i] == values[n]
            &&& i < 40 ==> forall|t: int| 0 <= t < values.len() && t != i && t != n ==> #[trigger] r[t] == values[t]
            &&& i >= 40 ==> r[i] == values[mid]
            &&& i >= 40 && mid != n ==> r[mid] == values[n]
            &&& i >= 40 ==> forall|t: int|
                0 <= t < values.len() && t != i && t != n && t != mid ==> #[trigger] r[t] == values[t]
        }),
{
    lemma_next_array_forward();
    let n = SYMRANK_NEXT_ARRAY@[i] as int;
    assert(next_rank(i) == n);
}

/// The symbol ranking state of one context.
pub struct SymRankCoder {
    value_array: Vec<u16>,
    index_array: Vec<u16>,
}

impl SymRankCoder {
    /// The symbol at each rank.
    pub closed spec fn values(&self) -> Seq<u16> {
        self.value_array@
    }

    /// The rank of each symbol.
    pub closed spec fn indices(&self) -> Seq<u16> {
        self.index_array@
    }

    /// Both tables are inverse permutations of the alphabet.
    pub open spec fn wf(&self) -> bool {
        is_rank_perm(self.values(), self.indices())
    }

    /// A coder with every rank and index zero, to be initialised with `init`.
    pub fn new() -> (r: Self)
        ensures
            r.values() == Seq::new(SYMRANK_NUM_SYMBOLS as nat, |i: int| 0u16),
            r.indices() == Seq::new(SYMRANK_NUM_SYMBOLS as nat, |i: int| 0u16),
    {
        let value_array = vec![0u16; SYMRANK_NUM_SYMBOLS];
        let index_array = vec![0u16; SYMRANK_NUM_SYMBOLS];
        let r = SymRankCoder { value_array, index_array };
        assert(r.values() =~= Seq::new(SYMRANK_NUM_SYMBOLS as nat, |i: int| 0u16));
        assert(r.indices() =~= Seq::new(SYMRANK_NUM_SYMBOLS as nat, |i: int| 0u16));
        r
    }

    /// A copy of this coder.
    pub fn duplicate(&self) -> (r: Self)
        ensures
            r.values() == self.values(),
            r.indices() == self.indices(),
    {
        let mut value_array: Vec<u16> = Vec::new();
        for i in 0..self.value_array.len()
            invariant
                value_array@ == self.value_array@.take(i as int),
        {
            value_array.push(self.value_array[i]);
            assert(value_array@ =~= self.value_array@.take(i + 1));
        }
        let mut index_array: Vec<u16> = Vec::new();
        for i in 0..self.index_array.len()
            invariant
                index_array@ == self.index_array@.take(i as int),
        {
            index_array.push(self.index_array[i]);
            assert(index_array@ =~= self.index_array@.take(i + 1));
        }
        assert(value_array@ =~= self.value_array@);
        assert(index_array@ =~= self.index_array@);
        SymRankCoder { value_array, index_array }
    }

    /// Puts `value_array[i]` at rank `i`, for each `i` in turn.
    pub fn init(&mut self, value_array: &[u16])
        requires
            old(self).values().len() == SYMRANK_NUM_SYMBOLS,
            old(self).indices().len() == SYMRANK_NUM_SYMBOLS,
            value_array.len() <= SYMRANK_NUM_SYMBOLS,
            forall|i: int| 0 <= i < value_array.len() ==> (#[trigger] value_array[i] as int) < SYMRANK_NUM_SYMBOLS,
        ensures
            final(self).values().len() == SYMRANK_NUM_SYMBOLS,
            final(self).indices().len() == SYMRANK_NUM_SYMBOLS,
            final(self).values().take(value_array.len() as int) == value_array@,
            final(self).values().skip(value_array.len() as int) == old(self).values().skip(value_array.len() as int),
            forall|j: int| 0 <= j < value_array.len() ==> #[trigger] final(self).indices()[value_array[j] as int]
                as int == last_position(value_array@, value_array[j]),
            forall|v: int| 0 <= v < SYMRANK_NUM_SYMBOLS && !value_array@.contains(v as u16)
                ==> #[trigger] final(self).indices()[v] == old(self).indices()[v],
            value_array.len() == SYMRANK_NUM_SYMBOLS && is_perm_of_alphabet(value_array@) ==> final(self).wf(),
            value_array.len() == SYMRANK_NUM_SYMBOLS && is_perm_of_alphabet(value_array@) ==> final(self).values()
                == value_array@ && final(self).indices() == perm_indices(value_array@),
    {
        let n = value_array.len();
        for i in 0..n
            invariant
                n == value_array.len(),
                n <= SYMRANK_NUM_SYMBOLS,
                forall|k: int| 0 <= k < n ==> (#[trigger] value_array[k] as int) < SYMRANK_NUM_SYMBOLS,
                self.values().len() == SYMRANK_NUM_SYMBOLS,
                self.indices().len() == SYMRANK_NUM_SYMBOLS,
                old(self).values().len() == SYMRANK_NUM_SYMBOLS,
                old(self).indices().len() == SYMRANK_NUM_SYMBOLS,
                self.values().take(i as int) == value_array@.take(i as int),
                self.values().skip(i as int) == old(self).values().skip(i as int),
                forall|j: int| 0 <= j < i ==> #[trigger] self.indices()[value_array[j] as int]
                    as int == last_position(value_array@.take(i as int), value_array[j]),
                forall|v: int| 0 <= v < SYMRANK_NUM_SYMBOLS && !value_array@.take(i as int).contains(v as u16)
                    ==> #[trigger] self.indices()[v] == old(self).indices()[v],
        {
            let value = value_array[i];
            let ghost before_idx = self.indices();
            let ghost before_vals = self.values();
            self.value_array.set(i, value);
            self.index_array.set(value as usize, i as u16);
            proof {
                let t = value_array@.take(i as int);
                let t2 = value_array@.take(i + 1);
                assert(t2 =~= t.push(value));
                assert(self.values().take(i + 1) =~= value_array@.take(i + 1));
                assert forall|k: int| 0 <= k < self.values().len() - (i + 1) implies #[trigger] self.values().skip(i + 1)[k]
                    == old(self).values().skip(i + 1)[k] by {
                    assert(self.values()[i + 1 + k] == before_vals[i + 1 + k]);
                    assert(before_vals.skip(i as int)[k + 1] == old(self).values().skip(i as int)[k + 1]);
                }
                assert(self.values().skip(i + 1) =~= old(self).values().skip(i + 1));
                lemma_last_position_push(t, value);
                assert forall|j: int| 0 <= j < i + 1 implies #[trigger] self.indices()[value_array[j] as int]
                    as int == last_position(t2, value_array[j]) by {
                    if value_array[j] != value {
                        assert(t2[j] == value_array[j]);
                        assert(j < i);
                    }
                }
                assert forall|v: int| 0 <= v < SYMRANK_NUM_SYMBOLS && !t2.contains(v as u16)
                    implies #[trigger] self.indices()[v] == old(self).indices()[v] by {
                    assert(t2[i as int] == value);
                    if t.contains(v as u16) {
                        let k = choose|k: int| 0 <= k < t.len() && t[k] == v as u16;
                        assert(t2[k] == v as u16);
                    }
                }
            }
        }
        proof {
            assert(value_array@.take(n as int) =~= value_array@);
            if n == SYMRANK_NUM_SYMBOLS && is_perm_of_alphabet(value_array@) {
                assert(self.values() =~= self.values().take(n as int));
                lemma_init_perm(self.values(), self.indices(), value_array@);
                lemma_perm_covers(value_array@);
                assert forall|v: int| 0 <= v < SYMRANK_NUM_SYMBOLS implies #[trigger] self.indices()[v] == perm_indices(
                    value_array@,
                )[v] by {
                    assert(symbol_listed(value_array@, v));
                    let j = choose|j: int| 0 <= j < value_array@.len() && value_array@[j] as int == v;
                    assert(value_array[j] as int == v);
                }
                assert(self.indices() =~= perm_indices(value_array@));
            }
        }
    }

    /// Encodes symbol `v` as its rank relative to the unlikely symbol `vunlikely`,
    /// then moves `v` up.
    pub fn encode(&mut self, v: u16, vunlikely: u16) -> (r: u16)
        requires
            old(self).wf(),
            (v as int) < SYMRANK_NUM_SYMBOLS,
            (vunlikely as int) < SYMRANK_NUM_SYMBOLS,
        ensures
            final(self).wf(),
            r as int == rank_code(old(self).indices()[v as int] as int, old(self).indices()[vunlikely as int] as int),
            (final(self).values(), final(self).indices()) == rank_update(
                old(self).values(),
                old(self).indices(),
                old(self).indices()[v as int] as int,
            ),
    {
        let i = self.index_array[v as usize];
        let iunlikely = self.index_array[vunlikely as usize];
        self.update(i);
        if i == iunlikely {
            return (SYMRANK_NUM_SYMBOLS - 1) as u16;
        }
        if i > iunlikely { i - 1 } else { i }
    }

    /// Decodes the code `i` back to its symbol, given the unlikely symbol,
    /// then moves the symbol up.
    pub fn decode(&mut self, i: u16, vunlikely: u16) -> (r: u16)
        requires
            old(self).wf(),
            (i as int) < SYMRANK_NUM_SYMBOLS,
            (vunlikely as int) < SYMRANK_NUM_SYMBOLS,
        ensures
            final(self).wf(),
            r == old(self).values()[code_rank(i as int, old(self).indices()[vunlikely as int] as int)],
            (final(self).values(), final(self).indices()) == rank_update(
                old(self).values(),
                old(self).indices(),
                code_rank(i as int, old(self).indices()[vunlikely as int] as int),
            ),
    {
        let iunlikely = self.index_array[vunlikely as usize];
        let i = if i as usize == SYMRANK_NUM_SYMBOLS - 1 {
            iunlikely
        } else if i >= iunlikely {
            i + 1
        } else {
            i
        };
        let v = self.value_array[i as usize];
        self.update(i);
        v
    }

    /// Exchanges the symbols at ranks `a` and `b`.
    fn swap(&mut self, a: u16, b: u16)
        requires
            old(self).wf(),
            (a as int) < SYMRANK_NUM_SYMBOLS,
            (b as int) < SYMRANK_NUM_SYMBOLS,
        ensures
            final(self).wf(),
            (final(self).values(), final(self).indices()) == swap_ranks(
                old(self).values(),
                old(self).indices(),
                a as int,
                b as int,
            ),
    {
        proof {
            lemma_swap_ranks_perm(self.values(), self.indices(), a as int, b as int);
        }
        let va = self.value_array[a as usize];
        let vb = self.value_array[b as usize];
        self.value_array.set(a as usize, vb);
        self.value_array.set(b as usize, va);
        self.index_array.set(va as usize, b);
        self.index_array.set(vb as usize, a);
    }

    /// Moves the symbol at rank `i` up towards the front.
    fn update(&mut self, i: u16)
        requires
            old(self).wf(),
            (i as int) < SYMRANK_NUM_SYMBOLS,
        ensures
            final(self).wf(),
            (final(self).values(), final(self).indices()) == rank_update(
                old(self).values(),
                old(self).indices(),
                i as int,
            ),
    {
        let t = SYMRANK_NEXT_ARRAY[i as usize];
        let ni = if t <= i { t } else { i };
        if i < 40 {
            self.swap(i, ni);
        } else {
            let mid = (i + ni) / 2;
            self.swap(i, mid);
            self.swap(mid, ni);
        }
    }
}

/// The last position at which `v` occurs in `s`.
pub open spec fn last_position(s: Seq<u16>, v: u16) -> int
    decreases s.len(),
{
    if s.len() == 0 {
        -1
    } else if s.last() == v {
        s.len() - 1
    } else {
        last_position(s.drop_last(), v)
    }
}

/// The rank of each symbol in the ordering `vs`.
pub open spec fn perm_indices(vs: Seq<u16>) -> Seq<u16> {
    Seq::new(SYMRANK_NUM_SYMBOLS as nat, |v: int| last_position(vs, v as u16) as u16)
}

/// `s` lists every symbol of the alphabet exactly once.
pub open spec fn is_perm_of_alphabet(s: Seq<u16>) -> bool {
    &&& s.len() == SYMRANK_NUM_SYMBOLS
    &&& forall|i: int| 0 <= i < s.len() ==> (#[trigger] s[i] as int) < SYMRANK_NUM_SYMBOLS
    &&& forall|i: int, j: int| 0 <= i < j < s.len() ==> s[i] != s[j]
}

proof fn lemma_last_position_push(s: Seq<u16>, v: u16)
    ensures
        last_position(s.push(v), v) == s.len(),
        forall|w: u16| w != v ==> #[trigger] last_position(s.push(v), w) == last_position(s, w),
{
    assert(s.push(v).drop_last() =~= s);
}

proof fn lemma_last_position_unique(s: Seq<u16>, j: int)
    requires
        0 <= j < s.len(),
        forall|a: int, b: int| 0 <= a < b < s.len() ==> s[a] != s[b],
    ensures
        last_position(s, s[j]) == j,
    decreases s.len(),
{
    if j < s.len() - 1 {
        assert(s.last() != s[j]);
        lemma_last_position_unique(s.drop_last(), j);
    }
}

proof fn lemma_init_perm(values: Seq<u16>, indices: Seq<u16>, s: Seq<u16>)
    requires
        is_perm_of_alphabet(s),
        values == s,
        indices.len() == SYMRANK_NUM_SYMBOLS,
        forall|j: int| 0 <= j < s.len() ==> #[trigger] indices[s[j] as int] as int == last_position(s, s[j]),
    ensures
        is_rank_perm(values, indices),
{
    assert forall|i: int| 0 <= i < SYMRANK_NUM_SYMBOLS implies (#[trigger] values[i] as int) < SYMRANK_NUM_SYMBOLS
        && indices[values[i] as int] == i by {
        lemma_last_position_unique(s, i);
    }
    lemma_perm_covers(s);
    assert forall|v: int| 0 <= v < SYMRANK_NUM_SYMBOLS implies (#[trigger] indices[v] as int) < SYMRANK_NUM_SYMBOLS
        && values[indices[v] as int] == v by {
        assert(symbol_listed(s, v));
        let j = choose|j: int| 0 <= j < s.len() && s[j] as int == v;
        lemma_last_position_unique(s, j);
    }
}

/// Symbol `v` occurs in `s`.
pub open spec fn symbol_listed(s: Seq<u16>, v: int) -> bool {
    exists|j: int| 0 <= j < s.len() && s[j] as int == v
}

/// A duplicate-free list of alphabet symbols as long as the alphabet holds every symbol.
proof fn lemma_perm_covers(s: Seq<u16>)
    requires
        is_perm_of_alphabet(s),
    ensures
        forall|v: int| 0 <= v < SYMRANK_NUM_SYMBOLS ==> #[trigger] symbol_listed(s, v),
{
    let m = s.map_values(|x: u16| x as int);
    let full = Set::new(|v: int| 0 <= v < SYMRANK_NUM_SYMBOLS);
    let img = m.to_set();
    assert(img.subset_of(full)) by {
        assert forall|v: int| img.contains(v) implies full.contains(v) by {
            let j = choose|j: int| 0 <= j < m.len() && m[j] == v;
            assert(s[j] as int == v);
        }
    }
    assert(m.no_duplicates()) by {
        assert forall|a: int, b: int| 0 <= a < m.len() && 0 <= b < m.len() && a != b implies m[a] != m[b] by {
            if a < b {
                assert(s[a] != s[b]);
            } else {
                assert(s[b] != s[a]);
            }
        }
    }
    m.unique_seq_to_set();
    assert(full =~= vstd::set_lib::set_int_range(0, SYMRANK_NUM_SYMBOLS as int));
    vstd::seq_lib::seq_to_set_is_finite(m);
    vstd::set_lib::lemma_int_range(0, SYMRANK_NUM_SYMBOLS as int);
    vstd::set_lib::lemma_subset_equality(img, full);
    assert forall|v: int| 0 <= v < SYMRANK_NUM_SYMBOLS implies #[trigger] symbol_listed(s, v) by {
        assert(full.contains(v));
        assert(img.contains(v));
        let j = choose|j: int| 0 <= j < m.len() && m[j] == v;
        assert(s[j] as int == v);
    }
}

/// Decoding inverts encoding: from the same state, the code that `encode`
/// sends for `v` is decoded back to `v`, and both sides end in the same state.
pub proof fn law_symrank_roundtrip(values: Seq<u16>, indices: Seq<u16>, v: int, vu: int)
    requires
        is_rank_perm(values, indices),
        0 <= v < SYMRANK_NUM_SYMBOLS,
        0 <= vu < SYMRANK_NUM_SYMBOLS,
    ensures
        ({
            let i = indices[v] as int;
            let iu = indices[vu] as int;
            let c = rank_code(i, iu);
            &&& 0 <= c < SYMRANK_NUM_SYMBOLS
            &&& code_rank(c, iu) == i
            &&& values[code_rank(c, iu)] as int == v
        }),
{
}

} // verus!
