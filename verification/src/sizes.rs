//! Size derivation and the name-to-size mapping.
//!
//! For reports that give only addresses, a symbol's size is the address
//! distance to the next symbol in address order.  The table is sorted by
//! address with a stable sort, every adjacent pair yields one mapping
//! entry, and the last symbol in sorted order — with no successor — gets
//! none.  When two symbols share a name, the later entry overwrites the
//! earlier one.

use vstd::prelude::*;

use crate::grammar::copy_range;
use crate::scan::chars_eq;
use crate::table::{symbols_view, MapFile, Symbol, SymbolV};

verus! {

/// One entry of a name-to-size mapping.
pub struct SizeEntry {
    pub name: Vec<char>,
    pub size: u64,
}

/// The mathematical content of a list of entries: later entries overwrite
/// earlier ones with the same name.
pub open spec fn entries_map(s: Seq<SizeEntry>) -> Map<Seq<char>, u64>
    decreases s.len(),
{
    if s.len() == 0 {
        Map::empty()
    } else {
        entries_map(s.drop_last()).insert(s.last().name@, s.last().size)
    }
}

/// A mapping from symbol name to size, read through its view as a
/// mathematical map.
pub struct SizeMap {
    pub entries: Vec<SizeEntry>,
}

impl View for SizeMap {
    type V = Map<Seq<char>, u64>;

    open spec fn view(&self) -> Map<Seq<char>, u64> {
        entries_map(self.entries@)
    }
}

/// A name is in the mapping exactly when some entry carries it.
pub proof fn lemma_entries_map_dom(s: Seq<SizeEntry>)
    ensures
        forall|k: Seq<char>|
            entries_map(s).dom().contains(k) <==> exists|i: int|
                0 <= i < s.len() && #[trigger] s[i].name@ == k,
    decreases s.len(),
{
    if s.len() > 0 {
        lemma_entries_map_dom(s.drop_last());
        assert forall|k: Seq<char>| entries_map(s).dom().contains(k) implies exists|i: int|
            0 <= i < s.len() && #[trigger] s[i].name@ == k by {
            if k == s.last().name@ {
                assert(s[s.len() - 1].name@ == k);
            } else {
                assert(entries_map(s.drop_last()).dom().contains(k));
                let i = choose|i: int| 0 <= i < s.drop_last().len() && #[trigger] s.drop_last()[i].name@ == k;
                assert(s.drop_last()[i] == s[i]);
                assert(s[i].name@ == k);
            }
        }
        assert forall|k: Seq<char>| (exists|i: int| 0 <= i < s.len() && #[trigger] s[i].name@ == k)
            implies entries_map(s).dom().contains(k) by {
            let i = choose|i: int| 0 <= i < s.len() && #[trigger] s[i].name@ == k;
            if i < s.len() - 1 {
                assert(s.drop_last()[i].name@ == k);
                assert(entries_map(s.drop_last()).dom().contains(k));
            } else {
                assert(k == s.last().name@);
            }
        }
    }
}

impl SizeMap {
    /// The empty mapping.
    pub fn new() -> (r: SizeMap)
        ensures
            r@ == Map::<Seq<char>, u64>::empty(),
    {
        SizeMap { entries: Vec::new() }
    }

    /// Binds `name` to `size`, overwriting any earlier binding.
    pub fn insert(&mut self, name: Vec<char>, size: u64)
        ensures
            final(self)@ == old(self)@.insert(name@, size),
    {
        let ghost prev = self.entries@;
        self.entries.push(SizeEntry { name, size });
        proof {
            assert(self.entries@.drop_last() =~= prev);
        }
    }

    /// Looks a name up.
    pub fn get(&self, name: &Vec<char>) -> (r: Option<u64>)
        ensures
            match r {
                Some(v) => self@.dom().contains(name@) && self@[name@] == v,
                None => !self@.dom().contains(name@),
            },
    {
        let mut j: usize = self.entries.len();
        proof {
            assert(self.entries@.subrange(0, self.entries@.len() as int) =~= self.entries@);
        }
        while j > 0
            invariant
                j <= self.entries.len(),
                entries_map(self.entries@).contains_key(name@) == entries_map(
                    self.entries@.subrange(0, j as int),
                ).contains_key(name@),
                entries_map(self.entries@).contains_key(name@) ==> entries_map(
                    self.entries@.subrange(0, j as int),
                )[name@] == entries_map(self.entries@)[name@],
            decreases j,
        {
            let ghost pre = self.entries@.subrange(0, j as int);
            proof {
                assert(pre.drop_last() =~= self.entries@.subrange(0, j as int - 1));
                assert(pre.last() == self.entries@[j as int - 1]);
            }
            if chars_eq(&self.entries[j - 1].name, name) {
                return Some(self.entries[j - 1].size);
            }
            j = j - 1;
        }
        proof {
            assert(self.entries@.subrange(0, 0) =~= Seq::<SizeEntry>::empty());
        }
        None
    }
}

/// Sorted by address, allowing ties.
pub open spec fn sorted_by_addr(s: Seq<SymbolV>) -> bool {
    forall|i: int, j: int| 0 <= i <= j < s.len() ==> s[i].address <= s[j].address
}

/// Stable insertion of `x` into a run sorted by address: `x` lands after
/// every element whose address does not exceed its own.
pub open spec fn insert_by_addr(s: Seq<SymbolV>, x: SymbolV) -> Seq<SymbolV>
    decreases s.len(),
{
    if s.len() == 0 {
        seq![x]
    } else if s.last().address <= x.address {
        s.push(x)
    } else {
        insert_by_addr(s.drop_last(), x).push(s.last())
    }
}

/// The stable sort of a table by address: symbols sharing an address keep
/// their original relative order.
pub open spec fn sort_by_addr(s: Seq<SymbolV>) -> Seq<SymbolV>
    decreases s.len(),
{
    if s.len() == 0 {
        Seq::empty()
    } else {
        insert_by_addr(sort_by_addr(s.drop_last()), s.last())
    }
}

/// Where stable insertion puts the new element: at the position `j` that
/// has everything at or after `j` strictly greater.
proof fn lemma_insert_by_addr_at(s: Seq<SymbolV>, x: SymbolV, j: int)
    requires
        0 <= j <= s.len(),
        forall|k: int| j <= k < s.len() ==> s[k].address > x.address,
        j > 0 ==> s[j - 1].address <= x.address,
    ensures
        insert_by_addr(s, x) == s.insert(j, x),
    decreases s.len(),
{
    if j == s.len() {
        if s.len() == 0 {
            assert(insert_by_addr(s, x) =~= s.insert(j, x));
        } else {
            assert(insert_by_addr(s, x) == s.push(x));
            assert(s.push(x) =~= s.insert(j, x));
        }
    } else {
        assert(s.last().address > x.address);
        lemma_insert_by_addr_at(s.drop_last(), x, j);
        assert(insert_by_addr(s, x) == s.drop_last().insert(j, x).push(s.last()));
        assert(s.drop_last().insert(j, x).push(s.last()) =~= s.insert(j, x));
    }
}

/// Stable insertion into a sorted run keeps it sorted.
proof fn lemma_insert_by_addr_sorted(s: Seq<SymbolV>, x: SymbolV)
    requires
        sorted_by_addr(s),
    ensures
        sorted_by_addr(insert_by_addr(s, x)),
        insert_by_addr(s, x).len() == s.len() + 1,
    decreases s.len(),
{
    if s.len() > 0 && s.last().address > x.address {
        assert(sorted_by_addr(s.drop_last()));
        lemma_insert_by_addr_sorted(s.drop_last(), x);
        let t = insert_by_addr(s.drop_last(), x);
        assert forall|i: int, j: int| 0 <= i <= j < t.push(s.last()).len() implies
            t.push(s.last())[i].address <= t.push(s.last())[j].address by {
            if j < t.len() {
            } else {
                if i < t.len() {
                    lemma_insert_by_addr_members(s.drop_last(), x, i);
                }
            }
        }
    }
}

/// Every element of a stable insertion is the inserted element or one of
/// the run's own.
proof fn lemma_insert_by_addr_members(s: Seq<SymbolV>, x: SymbolV, i: int)
    requires
        0 <= i < insert_by_addr(s, x).len(),
    ensures
        insert_by_addr(s, x)[i] == x || exists|k: int|
            0 <= k < s.len() && #[trigger] s[k] == insert_by_addr(s, x)[i],
    decreases s.len(),
{
    if s.len() == 0 {
    } else if s.last().address <= x.address {
        if i < s.len() {
            assert(s[i] == insert_by_addr(s, x)[i]);
        }
    } else {
        if i < insert_by_addr(s.drop_last(), x).len() {
            lemma_insert_by_addr_members(s.drop_last(), x, i);
            if insert_by_addr(s, x)[i] != x {
                let k = choose|k: int|
                    0 <= k < s.drop_last().len() && #[trigger] s.drop_last()[k] == insert_by_addr(
                        s.drop_last(),
                        x,
                    )[i];
                assert(s[k] == insert_by_addr(s, x)[i]);
            }
        } else {
            assert(insert_by_addr(s, x)[i] == s.last());
            assert(s[s.len() - 1] == insert_by_addr(s, x)[i]);
        }
    }
}

/// The stable sort sorts, and keeps the table's length.
pub proof fn lemma_sort_by_addr_sorted(s: Seq<SymbolV>)
    ensures
        sorted_by_addr(sort_by_addr(s)),
        sort_by_addr(s).len() == s.len(),
    decreases s.len(),
{
    if s.len() > 0 {
        lemma_sort_by_addr_sorted(s.drop_last());
        lemma_insert_by_addr_sorted(sort_by_addr(s.drop_last()), s.last());
    }
}

/// The sizes derived from a table: every adjacent pair in the given order
/// contributes `name of the first ↦ address distance`, later pairs
/// overwriting earlier ones; a table of one symbol or none contributes
/// nothing.
pub open spec fn derived_sizes(s: Seq<SymbolV>) -> Map<Seq<char>, u64>
    decreases s.len(),
{
    if s.len() <= 1 {
        Map::empty()
    } else {
        derived_sizes(s.drop_last()).insert(
            s[s.len() - 2].name,
            (s.last().address - s[s.len() - 2].address) as u64,
        )
    }
}

/// Every name the derived mapping knows belongs to a symbol that has a
/// successor in the given order.
pub proof fn lemma_derived_sizes_dom(s: Seq<SymbolV>)
    ensures
        forall|k: Seq<char>|
            derived_sizes(s).dom().contains(k) ==> exists|i: int|
                0 <= i < s.len() - 1 && #[trigger] s[i].name == k,
    decreases s.len(),
{
    if s.len() > 1 {
        lemma_derived_sizes_dom(s.drop_last());
        assert forall|k: Seq<char>| derived_sizes(s).dom().contains(k) implies exists|i: int|
            0 <= i < s.len() - 1 && #[trigger] s[i].name == k by {
            if k == s[s.len() - 2].name {
                assert(s[s.len() - 2].name == k);
            } else {
                assert(derived_sizes(s.drop_last()).dom().contains(k));
                let i = choose|i: int|
                    0 <= i < s.drop_last().len() - 1 && #[trigger] s.drop_last()[i].name == k;
                assert(s.drop_last()[i] == s[i]);
                assert(s[i].name == k);
            }
        }
    }
}

/// Size derivation: in a table sorted by address whose names are pairwise
/// distinct, every symbol but the last is mapped to the address distance
/// to its successor, and the last symbol of the sorted order has no entry
/// in the mapping.
pub proof fn lemma_size_derivation(s: Seq<SymbolV>)
    requires
        sorted_by_addr(s),
        forall|i: int, j: int| 0 <= i < j < s.len() ==> s[i].name != s[j].name,
    ensures
        forall|i: int|
            0 <= i < s.len() - 1 ==> derived_sizes(s).dom().contains(#[trigger] s[i].name)
                && derived_sizes(s)[s[i].name] == (s[i + 1].address - s[i].address) as u64,
        s.len() > 0 ==> !derived_sizes(s).dom().contains(s.last().name),
    decreases s.len(),
{
    if s.len() > 1 {
        let d = s.drop_last();
        assert(sorted_by_addr(d));
        lemma_size_derivation(d);
        lemma_derived_sizes_dom(d);
        assert forall|i: int| 0 <= i < s.len() - 1 implies derived_sizes(s).dom().contains(
            #[trigger] s[i].name,
        ) && derived_sizes(s)[s[i].name] == (s[i + 1].address - s[i].address) as u64 by {
            if i < s.len() - 2 {
                assert(d[i].name == s[i].name && d[i + 1] == s[i + 1]);
                assert(s[i].name != s[s.len() - 2].name);
            }
        }
        if derived_sizes(s).dom().contains(s.last().name) {
            assert(s.last().name != s[s.len() - 2].name);
            let i = choose|i: int| 0 <= i < d.len() - 1 && #[trigger] d[i].name == s.last().name;
            assert(s[i].name == s.last().name);
        }
    }
}

/// Stable exec insertion sort of the table by address; mirror of
/// `sort_by_addr`.
fn sort_symbols(symbols: &mut Vec<Symbol>)
    ensures
        symbols_view(final(symbols)@) == sort_by_addr(symbols_view(old(symbols)@)),
{
    let ghost orig = symbols_view(old(symbols)@);
    proof {
        if symbols@.len() == 0 {
            assert(symbols_view(symbols@.subrange(0, 0)) =~= Seq::<SymbolV>::empty());
            assert(sort_by_addr(orig.subrange(0, 0)) =~= Seq::<SymbolV>::empty());
        }
    }
    if symbols.len() == 0 {
        proof {
            assert(orig.subrange(0, 0) =~= orig);
            assert(symbols_view(symbols@) =~= sort_by_addr(orig));
        }
        return ;
    }
    let mut i: usize = 1;
    proof {
        assert(symbols_view(symbols@.subrange(0, 1)) =~= seq![symbols@[0]@]);
        assert(orig.subrange(0, 1) =~= seq![symbols@[0]@]);
        assert(sort_by_addr(orig.subrange(0, 1)) =~= insert_by_addr(
            sort_by_addr(orig.subrange(0, 1).drop_last()),
            symbols@[0]@,
        ));
        assert(orig.subrange(0, 1).drop_last() =~= Seq::<SymbolV>::empty());
        assert(symbols@.subrange(1, symbols@.len() as int) =~= old(symbols)@.subrange(
            1,
            old(symbols)@.len() as int,
        ));
    }
    while i < symbols.len()
        invariant
            1 <= i <= symbols.len(),
            symbols.len() == old(symbols).len(),
            orig == symbols_view(old(symbols)@),
            symbols_view(symbols@.subrange(0, i as int)) == sort_by_addr(orig.subrange(0, i as int)),
            symbols@.subrange(i as int, symbols@.len() as int) == old(symbols)@.subrange(
                i as int,
                old(symbols)@.len() as int,
            ),
        decreases symbols.len() - i,
    {
        let ghost sorted_pre = symbols_view(symbols@.subrange(0, i as int));
        let ghost before = symbols@;
        proof {
            assert(symbols@[i as int] == old(symbols)@[i as int]) by {
                assert(symbols@.subrange(i as int, symbols@.len() as int)[0] == symbols@[i as int]);
            }
            lemma_sort_by_addr_sorted(orig.subrange(0, i as int));
        }
        let x = symbols.remove(i);
        proof {
            before.remove_ensures(i as int);
            assert(symbols@.subrange(0, i as int) =~= before.subrange(0, i as int));
            assert(symbols_view(symbols@.subrange(0, i as int)) =~= sorted_pre);
        }
        let mut j: usize = i;
        while j > 0 && symbols[j - 1].address > x.address
            invariant
                0 <= j <= i,
                i < old(symbols).len(),
                symbols.len() == old(symbols).len() - 1,
                symbols_view(symbols@.subrange(0, i as int)) == sorted_pre,
                forall|k: int| j <= k < i ==> sorted_pre[k].address > x@.address,
            decreases j,
        {
            proof {
                assert(sorted_pre[j as int - 1] == symbols@[j as int - 1]@);
            }
            j = j - 1;
        }
        proof {
            if j > 0 {
                assert(sorted_pre[j as int - 1] == symbols@[j as int - 1]@);
            }
            lemma_insert_by_addr_at(sorted_pre, x@, j as int);
        }
        let ghost before_insert = symbols@;
        symbols.insert(j, x);
        proof {
            before_insert.insert_ensures(j as int, x);
            before_insert.subrange(0, i as int).insert_ensures(j as int, x);
            symbols_view(before_insert.subrange(0, i as int)).insert_ensures(j as int, x@);
            sorted_pre.insert_ensures(j as int, x@);
            assert(symbols@.subrange(0, i as int + 1) =~= before_insert.subrange(
                0,
                i as int,
            ).insert(j as int, x));
            assert(symbols_view(symbols@.subrange(0, i as int + 1)) =~= sorted_pre.insert(
                j as int,
                x@,
            ));
            assert(symbols_view(symbols@.subrange(0, i as int + 1)) == insert_by_addr(
                sorted_pre,
                x@,
            ));
            let p = orig.subrange(0, i as int + 1);
            assert(p.drop_last() =~= orig.subrange(0, i as int));
            assert(p.last() == orig[i as int]);
            assert(x@ == orig[i as int]);
            assert(sort_by_addr(p) == insert_by_addr(sort_by_addr(orig.subrange(0, i as int)), x@));
            assert forall|k: int| i + 1 <= k < symbols@.len() implies symbols@[k] == before[k] by {
                assert(symbols@[k] == before_insert[k - 1]);
                assert(before_insert[k - 1] == before[k]);
            }
            assert(symbols@.subrange(i as int + 1, symbols@.len() as int) =~= before.subrange(
                i as int + 1,
                before.len() as int,
            ));
            assert forall|k: int| i + 1 <= k < before.len() implies #[trigger] before[k] == old(
                symbols,
            )@[k] by {
                assert(before.subrange(i as int, before.len() as int)[k - i] == old(
                    symbols,
                )@.subrange(i as int, old(symbols)@.len() as int)[k - i]);
            }
            assert(symbols@.subrange(i as int + 1, symbols@.len() as int) =~= old(
                symbols,
            )@.subrange(i as int + 1, old(symbols)@.len() as int));
        }
        i = i + 1;
    }
    proof {
        assert(symbols@.subrange(0, symbols@.len() as int) =~= symbols@);
        assert(orig.subrange(0, orig.len() as int) =~= orig);
    }
}

impl MapFile {
    /// Sorts the table by address (stably) and derives every symbol's size
    /// as the address distance to its successor in sorted order, building
    /// the name-to-size mapping; the last symbol gets no entry, and of
    /// symbols sharing a name the later one wins.
    pub fn compute_symbol_sizes(&mut self) -> (r: SizeMap)
        ensures
            symbols_view(final(self).symbols@) == sort_by_addr(symbols_view(old(self).symbols@)),
            final(self).padding == old(self).padding,
            r@ == derived_sizes(sort_by_addr(symbols_view(old(self).symbols@))),
    {
        sort_symbols(&mut self.symbols);
        let ghost sv = symbols_view(self.symbols@);
        proof {
            lemma_sort_by_addr_sorted(symbols_view(old(self).symbols@));
        }
        let mut r = SizeMap::new();
        if self.symbols.len() < 2 {
            proof {
                assert(r@ =~= derived_sizes(sv));
            }
            return r;
        }
        let mut i: usize = 0;
        proof {
            assert(derived_sizes(sv.subrange(0, 1)) =~= Map::<Seq<char>, u64>::empty());
        }
        while i < self.symbols.len() - 1
            invariant
                i <= self.symbols@.len() - 1,
                self.symbols@.len() >= 2,
                sv == symbols_view(self.symbols@),
                sorted_by_addr(sv),
                r@ == derived_sizes(sv.subrange(0, i as int + 1)),
            decreases self.symbols.len() - i,
        {
            let name = copy_range(&self.symbols[i].name, 0, self.symbols[i].name.len());
            proof {
                assert(self.symbols@[i as int].name@.subrange(
                    0,
                    self.symbols@[i as int].name@.len() as int,
                ) =~= self.symbols@[i as int].name@);
                assert(sv[i as int] == self.symbols@[i as int]@);
                assert(sv[i as int + 1] == self.symbols@[i as int + 1]@);
            }
            let size = self.symbols[i + 1].address - self.symbols[i].address;
            r.insert(name, size);
            proof {
                let p = sv.subrange(0, i as int + 2);
                assert(p.drop_last() =~= sv.subrange(0, i as int + 1));
                assert(p[p.len() - 2] == sv[i as int]);
                assert(p.last() == sv[i as int + 1]);
            }
            i = i + 1;
        }
        proof {
            assert(sv.subrange(0, sv.len() as int) =~= sv);
        }
        r
    }

    /// The name-to-size mapping read off the finalized sizes, in
    /// finalization order, later symbols overwriting earlier ones with the
    /// same name.
    pub fn size_map(&self) -> (r: SizeMap)
        ensures
            r@ == sizes_by_name(symbols_view(self.symbols@)),
    {
        let mut r = SizeMap::new();
        let mut i: usize = 0;
        proof {
            assert(symbols_view(self.symbols@).subrange(0, 0) =~= Seq::<SymbolV>::empty());
        }
        while i < self.symbols.len()
            invariant
                i <= self.symbols@.len(),
                r@ == sizes_by_name(symbols_view(self.symbols@).subrange(0, i as int)),
            decreases self.symbols.len() - i,
        {
            let ghost sv = symbols_view(self.symbols@);
            let name = copy_range(&self.symbols[i].name, 0, self.symbols[i].name.len());
            proof {
                assert(self.symbols@[i as int].name@.subrange(
                    0,
                    self.symbols@[i as int].name@.len() as int,
                ) =~= self.symbols@[i as int].name@);
                let p = sv.subrange(0, i as int + 1);
                assert(p.drop_last() =~= sv.subrange(0, i as int));
                assert(p.last() == sv[i as int]);
                assert(sv[i as int] == self.symbols@[i as int]@);
            }
            r.insert(name, self.symbols[i].size);
            i = i + 1;
        }
        proof {
            assert(symbols_view(self.symbols@).subrange(
                0,
                symbols_view(self.symbols@).len() as int,
            ) =~= symbols_view(self.symbols@));
        }
        r
    }
}

/// The mapping read off finalized sizes: every symbol contributes
/// `name ↦ size`, later symbols overwriting earlier ones.
pub open spec fn sizes_by_name(s: Seq<SymbolV>) -> Map<Seq<char>, u64>
    decreases s.len(),
{
    if s.len() == 0 {
        Map::empty()
    } else {
        sizes_by_name(s.drop_last()).insert(s.last().name, s.last().size)
    }
}

} // verus!
