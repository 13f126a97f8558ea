//! The stack-state snapshot: an immutable description of which patches are
//! applied, unapplied or hidden, which commit realizes each patch, the
//! branch head the snapshot was recorded at, and a pointer to the previous
//! snapshot.
//!
//! A snapshot's invariants (see [`state_wf`]) hold of every value of
//! [`StackState`]: the three name sequences are pairwise disjoint and
//! together cover exactly the patch table, every name satisfies the
//! grammar, and the recorded head equals the top applied patch's commit.
//! The invariants that relate a snapshot to the object store are stated by
//! [`state_consistent`] over a [`CommitTable`](crate::ids) map.

use vstd::prelude::*;

use crate::error::Error;
use crate::ids::{CommitMeta, Oid};
use crate::patchname::{names_contain, names_of, valid_name, PatchName};

verus! {

/// A patch descriptor: the record pairing a patch name with the commit
/// that realizes the patch.
#[derive(Debug)]
pub struct PatchDesc {
    pub name: PatchName,
    pub oid: Oid,
}

impl PatchDesc {
    /// A copy of the descriptor.
    pub fn duplicate(&self) -> (r: PatchDesc)
        ensures
            r.name@ == self.name@,
            r.oid == self.oid,
    {
        PatchDesc { name: self.name.duplicate(), oid: self.oid }
    }
}

/// The names of a descriptor table, in table order.
pub open spec fn desc_names(s: Seq<PatchDesc>) -> Seq<Seq<char>> {
    s.map_values(|d: PatchDesc| d.name@)
}

/// The mapping a descriptor table denotes; later entries shadow earlier
/// ones, though well-formed tables have no duplicate names.
pub open spec fn desc_map(s: Seq<PatchDesc>) -> Map<Seq<char>, Oid>
    decreases s.len(),
{
    if s.len() == 0 {
        Map::empty()
    } else {
        desc_map(s.drop_last()).insert(s.last().name@, s.last().oid)
    }
}

/// The domain of a descriptor table's map is exactly its set of names.
pub proof fn lemma_desc_map_dom(s: Seq<PatchDesc>)
    ensures
        desc_map(s).dom() =~= desc_names(s).to_set(),
    decreases s.len(),
{
    if s.len() == 0 {
        assert forall|x: Seq<char>| !desc_names(s).to_set().contains(x) by {
            assert(!desc_names(s).contains(x));
        }
    } else {
        lemma_desc_map_dom(s.drop_last());
        assert(desc_names(s.drop_last()) =~= desc_names(s).drop_last());
        assert forall|x: Seq<char>| desc_map(s).dom().contains(x) implies desc_names(
            s,
        ).to_set().contains(x) by {
            if x == s.last().name@ {
                assert(desc_names(s)[s.len() - 1] == x);
            } else {
                let i = choose|i: int|
                    0 <= i < desc_names(s).drop_last().len() && desc_names(s).drop_last()[i] == x;
                assert(desc_names(s)[i] == x);
            }
        }
        assert forall|x: Seq<char>| desc_names(s).to_set().contains(x) implies desc_map(
            s,
        ).dom().contains(x) by {
            let i = choose|i: int| 0 <= i < desc_names(s).len() && desc_names(s)[i] == x;
            if i < s.len() - 1 {
                assert(desc_names(s).drop_last()[i] == x);
            }
        }
    }
}

/// In a table without duplicate names, each entry is what its name maps
/// to.
pub proof fn lemma_desc_map_at(s: Seq<PatchDesc>, i: int)
    requires
        desc_names(s).no_duplicates(),
        0 <= i < s.len(),
    ensures
        desc_map(s).dom().contains(s[i].name@),
        desc_map(s)[s[i].name@] == s[i].oid,
    decreases s.len(),
{
    if i == s.len() - 1 {
    } else {
        assert(desc_names(s.drop_last()) =~= desc_names(s).drop_last());
        lemma_desc_map_at(s.drop_last(), i);
        assert(desc_names(s)[i] != desc_names(s)[s.len() - 1]);
    }
}

/// Removing an entry of a duplicate-free table removes its name from the
/// map.
pub proof fn lemma_desc_map_remove(s: Seq<PatchDesc>, i: int)
    requires
        desc_names(s).no_duplicates(),
        0 <= i < s.len(),
    ensures
        desc_map(s.remove(i)) =~= desc_map(s).remove(s[i].name@),
    decreases s.len(),
{
    assert(desc_names(s.drop_last()) =~= desc_names(s).drop_last());
    if i == s.len() - 1 {
        assert(s.remove(i) =~= s.drop_last());
        lemma_desc_map_dom(s.drop_last());
        assert(!desc_names(s.drop_last()).contains(s.last().name@)) by {
            if desc_names(s.drop_last()).contains(s.last().name@) {
                let j = choose|j: int|
                    0 <= j < desc_names(s.drop_last()).len() && desc_names(s.drop_last())[j]
                        == s.last().name@;
                assert(desc_names(s)[j] == desc_names(s)[s.len() - 1]);
            }
        }
        assert(desc_map(s.drop_last()).insert(s.last().name@, s.last().oid).remove(s.last().name@)
            =~= desc_map(s.drop_last()));
    } else {
        assert(s.remove(i).last() == s.last());
        assert(s.remove(i).drop_last() =~= s.drop_last().remove(i));
        lemma_desc_map_remove(s.drop_last(), i);
        assert(s[i].name@ != s.last().name@) by {
            assert(desc_names(s)[i] != desc_names(s)[s.len() - 1]);
        }
        assert(desc_map(s.drop_last()).remove(s[i].name@).insert(s.last().name@, s.last().oid)
            =~= desc_map(s.drop_last()).insert(s.last().name@, s.last().oid).remove(s[i].name@));
    }
}

/// Appending an entry inserts its name into the map.
pub proof fn lemma_desc_map_push(s: Seq<PatchDesc>, d: PatchDesc)
    ensures
        desc_map(s.push(d)) =~= desc_map(s).insert(d.name@, d.oid),
        desc_names(s.push(d)) =~= desc_names(s).push(d.name@),
{
    assert(s.push(d).drop_last() =~= s);
}

/// A stack snapshot, as mathematics: the fields of the data model with
/// names as character sequences and the patch table as a map.
#[verifier::ext_equal]
pub struct StackView {
    pub head: Oid,
    pub prev: Option<Oid>,
    pub applied: Seq<Seq<char>>,
    pub unapplied: Seq<Seq<char>>,
    pub hidden: Seq<Seq<char>>,
    pub patches: Map<Seq<char>, Oid>,
}

/// All patch names of a snapshot: applied, then unapplied, then hidden.
pub open spec fn all_names(v: StackView) -> Seq<Seq<char>> {
    v.applied + v.unapplied + v.hidden
}

/// The snapshot invariants: each sequence holds a name at most once, the
/// three sequences are pairwise disjoint and cover exactly the patch
/// table's domain, every name satisfies the grammar, and the head equals
/// the top applied patch's commit.
pub open spec fn state_wf(v: StackView) -> bool {
    &&& v.applied.no_duplicates()
    &&& v.unapplied.no_duplicates()
    &&& v.hidden.no_duplicates()
    &&& v.applied.disjoint(v.unapplied)
    &&& v.applied.disjoint(v.hidden)
    &&& v.unapplied.disjoint(v.hidden)
    &&& v.patches.dom() == v.applied.to_set() + v.unapplied.to_set() + v.hidden.to_set()
    &&& (forall|n: Seq<char>| #[trigger] v.patches.dom().contains(n) ==> valid_name(n))
    &&& v.applied.len() > 0 ==> v.patches[v.applied.last()] == v.head
}

/// Appending a fresh element keeps a sequence duplicate-free and inserts
/// it into the element set.
pub proof fn lemma_push_fresh<A>(s: Seq<A>, x: A)
    requires
        s.no_duplicates(),
        !s.contains(x),
    ensures
        s.push(x).no_duplicates(),
        s.push(x).to_set() =~= s.to_set().insert(x),
{
    assert forall|y: A| s.push(x).to_set().contains(y) implies s.to_set().insert(x).contains(
        y,
    ) by {
        let i = choose|i: int| 0 <= i < s.push(x).len() && s.push(x)[i] == y;
        if i < s.len() {
            assert(s[i] == y);
        }
    }
    assert forall|y: A| s.to_set().insert(x).contains(y) implies s.push(x).to_set().contains(
        y,
    ) by {
        if s.contains(y) {
            let i = choose|i: int| 0 <= i < s.len() && s[i] == y;
            assert(s.push(x)[i] == y);
        } else {
            assert(s.push(x)[s.len() as int] == x);
        }
    }
}

/// Removing an entry of a duplicate-free sequence removes exactly that
/// element from the element set.
pub proof fn lemma_remove_unique<A>(s: Seq<A>, i: int)
    requires
        s.no_duplicates(),
        0 <= i < s.len(),
    ensures
        s.remove(i).no_duplicates(),
        s.remove(i).to_set() =~= s.to_set().remove(s[i]),
        !s.remove(i).contains(s[i]),
{
    s.remove_ensures(i);
    assert forall|y: A| s.remove(i).to_set().contains(y) implies s.to_set().remove(
        s[i],
    ).contains(y) by {
        let j = choose|j: int| 0 <= j < s.remove(i).len() && s.remove(i)[j] == y;
        if j < i {
            assert(s[j] == y);
        } else {
            assert(s[j + 1] == y);
        }
    }
    assert forall|y: A| s.to_set().remove(s[i]).contains(y) implies s.remove(i).to_set().contains(
        y,
    ) by {
        let j = choose|j: int| 0 <= j < s.len() && s[j] == y;
        if j < i {
            assert(s.remove(i)[j] == y);
        } else {
            assert(j != i);
            assert(s.remove(i)[j - 1] == y);
        }
    }
    assert forall|j: int| 0 <= j < s.remove(i).len() implies s.remove(i)[j] != s[i] by {
        if j < i {
            assert(s.remove(i)[j] == s[j]);
        } else {
            assert(s.remove(i)[j] == s[j + 1]);
        }
    }
}

/// Concatenating disjoint duplicate-free sequences yields a duplicate-free
/// sequence whose element set is the union.
pub proof fn lemma_concat_fresh<A>(a: Seq<A>, b: Seq<A>)
    requires
        a.no_duplicates(),
        b.no_duplicates(),
        a.disjoint(b),
    ensures
        (a + b).no_duplicates(),
        (a + b).to_set() =~= a.to_set() + b.to_set(),
{
    assert forall|i: int, j: int|
        0 <= i < (a + b).len() && 0 <= j < (a + b).len() && i != j implies (a + b)[i] != (a
        + b)[j] by {
        if i < a.len() && j < a.len() {
            assert(a[i] != a[j]);
        } else if i >= a.len() && j >= a.len() {
            assert(b[i - a.len()] != b[j - a.len()]);
        }
    }
    assert forall|y: A| (a + b).to_set().contains(y) implies (a.to_set() + b.to_set()).contains(
        y,
    ) by {
        let i = choose|i: int| 0 <= i < (a + b).len() && (a + b)[i] == y;
        if i < a.len() {
            assert(a[i] == y);
        } else {
            assert(b[i - a.len()] == y);
        }
    }
    assert forall|y: A| (a.to_set() + b.to_set()).contains(y) implies (a + b).to_set().contains(
        y,
    ) by {
        if a.contains(y) {
            let i = choose|i: int| 0 <= i < a.len() && a[i] == y;
            assert((a + b)[i] == y);
        } else {
            let i = choose|i: int| 0 <= i < b.len() && b[i] == y;
            assert((a + b)[a.len() + i] == y);
        }
    }
}

/// Splitting a duplicate-free sequence partitions its element set.
pub proof fn lemma_split_unique<A>(s: Seq<A>, k: int)
    requires
        s.no_duplicates(),
        0 <= k <= s.len(),
    ensures
        s.take(k).no_duplicates(),
        s.skip(k).no_duplicates(),
        s.take(k).disjoint(s.skip(k)),
        s.to_set() =~= s.take(k).to_set() + s.skip(k).to_set(),
{
    assert(s.take(k) + s.skip(k) =~= s);
    assert forall|i: int, j: int|
        0 <= i < s.take(k).len() && 0 <= j < s.skip(k).len() implies s.take(k)[i] != s.skip(
        k,
    )[j] by {
        assert(s.take(k)[i] == s[i]);
        assert(s.skip(k)[j] == s[k + j]);
    }
    lemma_concat_fresh(s.take(k), s.skip(k));
    assert(s.take(k).to_set() + s.skip(k).to_set() =~= (s.take(k) + s.skip(k)).to_set());
}

/// The snapshot invariants that speak of the object store: every patch's
/// commit is known, every patch commit has a parent, and consecutive
/// applied patches are linked by first-parent edges.
pub open spec fn state_consistent(v: StackView, m: Map<Oid, CommitMeta>) -> bool {
    &&& (forall|n: Seq<char>| #[trigger] v.patches.dom().contains(n) ==> m.dom().contains(
        v.patches[n],
    ) && m[v.patches[n]].parent is Some)
    &&& (forall|i: int|
        0 < i < v.applied.len() ==> m[v.patches[#[trigger] v.applied[i]]].parent == Some(
            v.patches[v.applied[i - 1]],
        ))
}

/// Whether the snapshot's base can be read from the registered commits:
/// with nothing applied it is the head itself; otherwise the bottom
/// applied patch's commit must be registered with a parent.
pub open spec fn base_known(v: StackView, m: Map<Oid, CommitMeta>) -> bool {
    v.applied.len() > 0 ==> m.dom().contains(v.patches[v.applied[0]])
        && m[v.patches[v.applied[0]]].parent is Some
}

/// The base of a snapshot: the first parent of the bottom applied patch,
/// or the head itself when nothing is applied.
pub open spec fn state_base(v: StackView, m: Map<Oid, CommitMeta>) -> Oid {
    if v.applied.len() == 0 {
        v.head
    } else {
        m[v.patches[v.applied[0]]].parent->Some_0
    }
}

/// The empty snapshot recorded at a head.
pub open spec fn spec_new_state(head: Oid) -> StackView {
    StackView {
        head,
        prev: None,
        applied: Seq::empty(),
        unapplied: Seq::empty(),
        hidden: Seq::empty(),
        patches: Map::empty(),
    }
}

/// A stack snapshot. Every value satisfies [`state_wf`] of its view.
#[derive(Debug)]
pub struct StackState {
    head: Oid,
    prev: Option<Oid>,
    applied: Vec<PatchName>,
    unapplied: Vec<PatchName>,
    hidden: Vec<PatchName>,
    patches: Vec<PatchDesc>,
}

impl View for StackState {
    type V = StackView;

    closed spec fn view(&self) -> StackView {
        StackView {
            head: self.head,
            prev: self.prev,
            applied: names_of(self.applied@),
            unapplied: names_of(self.unapplied@),
            hidden: names_of(self.hidden@),
            patches: desc_map(self.patches@),
        }
    }
}

impl StackState {
    /// The snapshot invariants, plus the representation's own: the
    /// descriptor table holds each name once.
    #[verifier::type_invariant]
    pub closed spec fn inv(self) -> bool {
        &&& desc_names(self.patches@).no_duplicates()
        &&& state_wf(self@)
    }

    /// The empty snapshot at the given head: no patches at all.
    pub fn new(head: Oid) -> (r: StackState)
        ensures
            r@ =~= spec_new_state(head),
            state_wf(r@),
    {
        let applied: Vec<PatchName> = Vec::new();
        let unapplied: Vec<PatchName> = Vec::new();
        let hidden: Vec<PatchName> = Vec::new();
        let patches: Vec<PatchDesc> = Vec::new();
        proof {
            assert forall|x: Seq<char>|
                !(names_of(applied@).to_set() + names_of(unapplied@).to_set() + names_of(
                    hidden@,
                ).to_set()).contains(x) by {
                assert(!names_of(applied@).contains(x));
                assert(!names_of(unapplied@).contains(x));
                assert(!names_of(hidden@).contains(x));
            }
            assert(desc_map(patches@).dom() =~= names_of(applied@).to_set() + names_of(
                unapplied@,
            ).to_set() + names_of(hidden@).to_set());
            assert(desc_names(patches@) =~= Seq::<Seq<char>>::empty());
        }
        let r = StackState { head, prev: None, applied, unapplied, hidden, patches };
        proof {
            assert(r@ =~= spec_new_state(head));
        }
        r
    }

    /// The recorded branch head.
    pub fn head(&self) -> (r: Oid)
        ensures
            r == self@.head,
    {
        self.head
    }

    /// The previous stack-state commit, if any.
    pub fn prev(&self) -> (r: Option<Oid>)
        ensures
            r == self@.prev,
    {
        self.prev
    }

    /// The applied patch names, bottom to top.
    pub fn applied(&self) -> (r: &Vec<PatchName>)
        ensures
            names_of(r@) == self@.applied,
    {
        &self.applied
    }

    /// The unapplied patch names.
    pub fn unapplied(&self) -> (r: &Vec<PatchName>)
        ensures
            names_of(r@) == self@.unapplied,
    {
        &self.unapplied
    }

    /// The hidden patch names.
    pub fn hidden(&self) -> (r: &Vec<PatchName>)
        ensures
            names_of(r@) == self@.hidden,
    {
        &self.hidden
    }

    /// The type invariant implies the snapshot invariants.
    pub proof fn lemma_inv_wf(&self)
        requires
            self.inv(),
        ensures
            state_wf(self@),
    {
    }

    /// The commit recorded for a patch, if the patch exists.
    pub fn patch_oid(&self, name: &PatchName) -> (r: Option<Oid>)
        ensures
            match r {
                Some(oid) => self@.patches.dom().contains(name@) && self@.patches[name@] == oid,
                None => !self@.patches.dom().contains(name@),
            },
    {
        proof {
            use_type_invariant(self);
            lemma_desc_map_dom(self.patches@);
        }
        let mut i: usize = 0;
        while i < self.patches.len()
            invariant
                i <= self.patches@.len(),
                forall|j: int| 0 <= j < i ==> desc_names(self.patches@)[j] != name@,
                desc_names(self.patches@).no_duplicates(),
                self@.patches == desc_map(self.patches@),
            decreases self.patches@.len() - i,
        {
            if self.patches[i].name.same_as(name) {
                proof {
                    lemma_desc_map_at(self.patches@, i as int);
                }
                return Some(self.patches[i].oid);
            }
            i += 1;
        }
        proof {
            assert(!desc_names(self.patches@).contains(name@));
            lemma_desc_map_dom(self.patches@);
        }
        None
    }

    /// All patch names of the snapshot: applied, then unapplied, then
    /// hidden.
    pub fn all_patch_names(&self) -> (r: Vec<PatchName>)
        ensures
            names_of(r@) == all_names(self@),
    {
        let mut r: Vec<PatchName> = Vec::new();
        append_names(&mut r, &self.applied);
        append_names(&mut r, &self.unapplied);
        append_names(&mut r, &self.hidden);
        proof {
            assert(names_of(r@) =~= all_names(self@));
        }
        r
    }

    /// A deep copy of the snapshot.
    pub fn duplicate(&self) -> (r: StackState)
        ensures
            r@ =~= self@,
            state_wf(r@),
    {
        proof {
            use_type_invariant(self);
        }
        let mut applied: Vec<PatchName> = Vec::new();
        append_names(&mut applied, &self.applied);
        let mut unapplied: Vec<PatchName> = Vec::new();
        append_names(&mut unapplied, &self.unapplied);
        let mut hidden: Vec<PatchName> = Vec::new();
        append_names(&mut hidden, &self.hidden);
        let mut patches: Vec<PatchDesc> = Vec::new();
        let mut i: usize = 0;
        while i < self.patches.len()
            invariant
                i <= self.patches@.len(),
                desc_names(patches@) =~= desc_names(self.patches@).take(i as int),
                desc_map(patches@) =~= desc_map(self.patches@.take(i as int)),
            decreases self.patches@.len() - i,
        {
            let d = self.patches[i].duplicate();
            proof {
                lemma_desc_map_push(patches@, d);
                lemma_desc_map_push(self.patches@.take(i as int), self.patches@[i as int]);
                assert(self.patches@.take(i as int).push(self.patches@[i as int])
                    =~= self.patches@.take(i + 1));
                assert(desc_names(patches@.push(d)) =~= desc_names(self.patches@).take(i + 1));
            }
            patches.push(d);
            i += 1;
        }
        assert(self.patches@.take(self.patches@.len() as int) =~= self.patches@);
        assert(desc_names(patches@) =~= desc_names(self.patches@));
        let r = StackState {
            head: self.head,
            prev: self.prev,
            applied,
            unapplied,
            hidden,
            patches,
        };
        proof {
            assert(r@ =~= self@);
        }
        r
    }

    /// A snapshot equal to this one but recorded at a new head, with the
    /// previous-state pointer set. The new head must still agree with the
    /// top applied patch.
    pub fn advance_head(self, new_head: Oid, prev_state: Oid) -> (r: StackState)
        requires
            self@.applied.len() > 0 ==> new_head == self@.patches[self@.applied.last()],
        ensures
            r@ =~= (StackView { head: new_head, prev: Some(prev_state), ..self@ }),
            state_wf(r@),
    {
        proof {
            use_type_invariant(&self);
        }
        let r = StackState {
            head: new_head,
            prev: Some(prev_state),
            applied: self.applied,
            unapplied: self.unapplied,
            hidden: self.hidden,
            patches: self.patches,
        };
        proof {
            assert(all_names(r@) =~= all_names(self@));
        }
        r
    }
}

/// A sequence with the first occurrence of a name removed; sequences of a
/// well-formed snapshot hold a name at most once.
pub open spec fn remove_first(s: Seq<Seq<char>>, n: Seq<char>) -> Seq<Seq<char>> {
    if s.contains(n) {
        s.remove(s.index_of(n))
    } else {
        s
    }
}

/// A sequence with the first occurrence of a name replaced by another.
pub open spec fn replace_name(s: Seq<Seq<char>>, o: Seq<char>, n: Seq<char>) -> Seq<Seq<char>> {
    if s.contains(o) {
        s.update(s.index_of(o), n)
    } else {
        s
    }
}

/// The least applied index holding one of the given names; the length when
/// none does.
pub open spec fn first_match_index(applied: Seq<Seq<char>>, names: Seq<Seq<char>>) -> int
    decreases applied.len(),
{
    if applied.len() == 0 {
        0
    } else if names.contains(applied[0]) {
        0
    } else {
        1 + first_match_index(applied.drop_first(), names)
    }
}

/// What inserting a brand-new patch at the top of the stack yields.
pub open spec fn spec_new_applied(v: StackView, n: Seq<char>, oid: Oid) -> StackView {
    StackView { head: oid, applied: v.applied.push(n), patches: v.patches.insert(n, oid), ..v }
}

/// What reapplying a stored patch yields: the name moves from unapplied or
/// hidden to the top of applied, realized by the new commit.
pub open spec fn spec_push_patch(v: StackView, n: Seq<char>, oid: Oid) -> StackView {
    StackView {
        head: oid,
        applied: v.applied.push(n),
        unapplied: remove_first(v.unapplied, n),
        hidden: remove_first(v.hidden, n),
        patches: v.patches.insert(n, oid),
        ..v
    }
}

/// The popped names that were not asked for: those of the popped patches
/// outside the given name list, in stack order.
pub open spec fn extras_of(popped: Seq<Seq<char>>, names: Seq<Seq<char>>) -> Seq<Seq<char>> {
    popped.filter(|n: Seq<char>| !names.contains(n))
}

/// A name of a well-formed snapshot's patch table lies in none of its
/// sequences once absent from the table's domain, and conversely.
proof fn lemma_dom_split(v: StackView, n: Seq<char>)
    requires
        state_wf(v),
    ensures
        v.patches.dom().contains(n) <==> (v.applied.contains(n) || v.unapplied.contains(n)
            || v.hidden.contains(n)),
{
}

/// Law: inserting a brand-new patch at the top preserves the snapshot
/// invariants.
pub proof fn lemma_new_applied_wf(v: StackView, n: Seq<char>, oid: Oid)
    requires
        state_wf(v),
        !v.patches.dom().contains(n),
        valid_name(n),
    ensures
        state_wf(spec_new_applied(v, n, oid)),
{
    let r = spec_new_applied(v, n, oid);
    lemma_dom_split(v, n);
    lemma_push_fresh(v.applied, n);
    assert forall|i: int, j: int|
        0 <= i < r.applied.len() && 0 <= j < r.unapplied.len() implies r.applied[i]
        != r.unapplied[j] by {
        if i == v.applied.len() {
            if v.unapplied[j] == n {
                assert(v.unapplied.contains(n));
            }
        }
    }
    assert forall|i: int, j: int|
        0 <= i < r.applied.len() && 0 <= j < r.hidden.len() implies r.applied[i] != r.hidden[j] by {
        if i == v.applied.len() {
            if v.hidden[j] == n {
                assert(v.hidden.contains(n));
            }
        }
    }
    assert(r.patches.dom() =~= r.applied.to_set() + r.unapplied.to_set() + r.hidden.to_set());
    assert forall|y: Seq<char>| r.patches.dom().contains(y) implies valid_name(y) by {
        if y != n {
            assert(v.patches.dom().contains(y));
        }
    }
    assert(r.applied.last() == n);
}

/// Law: reapplying a stored patch at the top preserves the snapshot
/// invariants.
pub proof fn lemma_push_patch_wf(v: StackView, n: Seq<char>, oid: Oid)
    requires
        state_wf(v),
        v.unapplied.contains(n) || v.hidden.contains(n),
    ensures
        state_wf(spec_push_patch(v, n, oid)),
{
    let r = spec_push_patch(v, n, oid);
    assert(!v.applied.contains(n)) by {
        if v.applied.contains(n) {
            let i = choose|i: int| 0 <= i < v.applied.len() && v.applied[i] == n;
            if v.unapplied.contains(n) {
                let j = choose|j: int| 0 <= j < v.unapplied.len() && v.unapplied[j] == n;
                assert(v.applied[i] != v.unapplied[j]);
            } else {
                let j = choose|j: int| 0 <= j < v.hidden.len() && v.hidden[j] == n;
                assert(v.applied[i] != v.hidden[j]);
            }
        }
    }
    lemma_push_fresh(v.applied, n);
    if v.unapplied.contains(n) {
        let i = v.unapplied.index_of(n);
        assert(0 <= i < v.unapplied.len() && v.unapplied[i] == n) by {
            assert(exists|k: int| 0 <= k < v.unapplied.len() && v.unapplied[k] == n);
        }
        lemma_remove_unique(v.unapplied, i);
        assert(!v.hidden.contains(n)) by {
            if v.hidden.contains(n) {
                let j = choose|j: int| 0 <= j < v.hidden.len() && v.hidden[j] == n;
                assert(v.unapplied[i] != v.hidden[j]);
            }
        }
        assert(remove_first(v.hidden, n) == v.hidden);
        assert(r.unapplied == v.unapplied.remove(i));
    } else {
        let i = v.hidden.index_of(n);
        assert(0 <= i < v.hidden.len() && v.hidden[i] == n) by {
            assert(exists|k: int| 0 <= k < v.hidden.len() && v.hidden[k] == n);
        }
        lemma_remove_unique(v.hidden, i);
        assert(remove_first(v.unapplied, n) == v.unapplied);
        assert(r.hidden == v.hidden.remove(i));
    }
    assert forall|i: int, j: int|
        0 <= i < r.applied.len() && 0 <= j < r.unapplied.len() implies r.applied[i]
        != r.unapplied[j] by {
        assert(v.unapplied.contains(r.unapplied[j]));
        if i < v.applied.len() {
            let k = choose|k: int| 0 <= k < v.unapplied.len() && v.unapplied[k] == r.unapplied[j];
            assert(v.applied[i] != v.unapplied[k]);
        } else {
            assert(r.applied[i] == n);
            assert(!r.unapplied.contains(n));
        }
    }
    assert forall|i: int, j: int|
        0 <= i < r.applied.len() && 0 <= j < r.hidden.len() implies r.applied[i] != r.hidden[j] by {
        assert(v.hidden.contains(r.hidden[j]));
        if i < v.applied.len() {
            let k = choose|k: int| 0 <= k < v.hidden.len() && v.hidden[k] == r.hidden[j];
            assert(v.applied[i] != v.hidden[k]);
        } else {
            assert(r.applied[i] == n);
            assert(!r.hidden.contains(n));
        }
    }
    assert forall|i: int, j: int|
        0 <= i < r.unapplied.len() && 0 <= j < r.hidden.len() implies r.unapplied[i]
        != r.hidden[j] by {
        assert(v.unapplied.contains(r.unapplied[i]));
        assert(v.hidden.contains(r.hidden[j]));
        let a = choose|a: int| 0 <= a < v.unapplied.len() && v.unapplied[a] == r.unapplied[i];
        let b = choose|b: int| 0 <= b < v.hidden.len() && v.hidden[b] == r.hidden[j];
        assert(v.unapplied[a] != v.hidden[b]);
    }
    assert(r.patches.dom() =~= r.applied.to_set() + r.unapplied.to_set() + r.hidden.to_set()) by {
        lemma_dom_split(v, n);
        assert forall|y: Seq<char>| r.patches.dom().contains(y) implies (r.applied.to_set()
            + r.unapplied.to_set() + r.hidden.to_set()).contains(y) by {
            if y == n {
                assert(r.applied.contains(n)) by {
                    assert(r.applied[v.applied.len() as int] == n);
                }
            } else {
                assert(v.patches.dom().contains(y));
                if v.applied.contains(y) {
                    let i = choose|i: int| 0 <= i < v.applied.len() && v.applied[i] == y;
                    assert(r.applied[i] == y);
                } else if v.unapplied.contains(y) {
                    assert(r.unapplied.contains(y)) by {
                        let i = choose|i: int|
                            0 <= i < v.unapplied.len() && v.unapplied[i] == y;
                        if v.unapplied.contains(n) {
                            let k = v.unapplied.index_of(n);
                            if i < k {
                                assert(v.unapplied.remove(k)[i] == y);
                            } else {
                                assert(i != k);
                                assert(v.unapplied.remove(k)[i - 1] == y);
                            }
                        }
                    }
                } else {
                    assert(r.hidden.contains(y)) by {
                        let i = choose|i: int| 0 <= i < v.hidden.len() && v.hidden[i] == y;
                        if v.hidden.contains(n) {
                            let k = v.hidden.index_of(n);
                            if i < k {
                                assert(v.hidden.remove(k)[i] == y);
                            } else {
                                assert(i != k);
                                assert(v.hidden.remove(k)[i - 1] == y);
                            }
                        }
                    }
                }
            }
        }
        assert forall|y: Seq<char>| (r.applied.to_set() + r.unapplied.to_set()
            + r.hidden.to_set()).contains(y) implies r.patches.dom().contains(y) by {
            if r.applied.contains(y) {
                let i = choose|i: int| 0 <= i < r.applied.len() && r.applied[i] == y;
                if i < v.applied.len() {
                    assert(v.applied[i] == y);
                }
            } else if r.unapplied.contains(y) {
                assert(v.unapplied.contains(y));
            } else {
                assert(v.hidden.contains(y));
            }
        }
    }
    assert forall|y: Seq<char>| r.patches.dom().contains(y) implies valid_name(y) by {
        if y != n {
            assert(v.patches.dom().contains(y));
        } else {
            assert(v.patches.dom().contains(n)) by {
                lemma_dom_split(v, n);
            }
        }
    }
    assert(r.applied.last() == n);
}

/// What popping every applied patch at index `k` and above yields: the
/// popped names go to the front of unapplied in stack order, and the head
/// returns to the remaining top (or to `empty_head`, the stack base, when
/// nothing stays applied).
pub open spec fn spec_pop_patches(v: StackView, k: int, empty_head: Oid) -> StackView {
    StackView {
        head: if k == v.applied.len() {
            v.head
        } else if k > 0 {
            v.patches[v.applied[k - 1]]
        } else {
            empty_head
        },
        applied: v.applied.take(k),
        unapplied: v.applied.skip(k) + v.unapplied,
        ..v
    }
}

/// Removing an element commutes with taking the names.
pub proof fn lemma_names_remove(s: Seq<PatchName>, i: int)
    requires
        0 <= i < s.len(),
    ensures
        names_of(s.remove(i)) =~= names_of(s).remove(i),
{
    s.remove_ensures(i);
    names_of(s).remove_ensures(i);
}

/// In a duplicate-free sequence, an occurrence of a name is its only one,
/// so removing the first occurrence removes exactly that index.
pub proof fn lemma_index_of_unique(s: Seq<Seq<char>>, i: int, n: Seq<char>)
    requires
        s.no_duplicates(),
        0 <= i < s.len(),
        s[i] == n,
    ensures
        s.contains(n),
        s.index_of(n) == i,
        remove_first(s, n) == s.remove(i),
{
    assert(s.contains(n)) by {
        assert(s[i] == n);
    }
    let j = s.index_of(n);
    assert(0 <= j < s.len() && s[j] == n) by {
        assert(exists|k: int| 0 <= k < s.len() && s[k] == n);
    }
}

/// Find the index of a name in a list, scanning from the front.
fn find_name(v: &Vec<PatchName>, n: &PatchName) -> (r: Option<usize>)
    ensures
        match r {
            Some(i) => i < v@.len() && names_of(v@)[i as int] == n@,
            None => !names_of(v@).contains(n@),
        },
{
    let mut i: usize = 0;
    while i < v.len()
        invariant
            i <= v@.len(),
            forall|j: int| 0 <= j < i ==> names_of(v@)[j] != n@,
        decreases v@.len() - i,
    {
        if v[i].same_as(n) {
            return Some(i);
        }
        i += 1;
    }
    proof {
        assert forall|j: int| 0 <= j < names_of(v@).len() implies names_of(v@)[j] != n@ by {}
    }
    None
}

/// Find the index of a name in a descriptor table.
fn desc_find(v: &Vec<PatchDesc>, n: &PatchName) -> (r: Option<usize>)
    ensures
        match r {
            Some(i) => i < v@.len() && desc_names(v@)[i as int] == n@ && v@[i as int].name@ == n@,
            None => !desc_names(v@).contains(n@),
        },
{
    let mut i: usize = 0;
    while i < v.len()
        invariant
            i <= v@.len(),
            forall|j: int| 0 <= j < i ==> desc_names(v@)[j] != n@,
        decreases v@.len() - i,
    {
        if v[i].name.same_as(n) {
            return Some(i);
        }
        i += 1;
    }
    None
}

impl StackState {
    /// Insert a brand-new patch at the top of the stack, realized by the
    /// given commit; the head moves to that commit. Fails exactly when a
    /// patch of that name already exists.
    pub fn new_applied(&mut self, name: &PatchName, oid: Oid) -> (r: Result<(), Error>)
        ensures
            match r {
                Ok(()) => {
                    &&& !old(self)@.patches.dom().contains(name@)
                    &&& final(self)@ =~= spec_new_applied(old(self)@, name@, oid)
                    &&& state_wf(final(self)@)
                },
                Err(e) => {
                    &&& old(self)@.patches.dom().contains(name@)
                    &&& final(self)@ == old(self)@
                    &&& e matches Error::PatchNameExists(t) && t@ == name@
                },
            },
    {
        proof {
            use_type_invariant(&*self);
            use_type_invariant(name);
        }
        match self.patch_oid(name) {
            Some(_) => {
                return Err(Error::PatchNameExists(name.to_text()));
            },
            None => {},
        }
        let dup = self.duplicate();
        proof {
            use_type_invariant(&dup);
        }
        let StackState { head: _, prev, mut applied, unapplied, hidden, mut patches } = dup;
        let new_desc = PatchDesc { name: name.duplicate(), oid };
        proof {
            assert(!names_of(applied@).contains(name@)) by {
                if names_of(applied@).contains(name@) {
                    assert(names_of(applied@).to_set().contains(name@));
                }
            }
            lemma_push_fresh(names_of(applied@), name@);
            lemma_desc_map_push(patches@, new_desc);
            lemma_desc_map_dom(patches@);
            assert(!desc_names(patches@).contains(name@)) by {
                if desc_names(patches@).contains(name@) {
                    assert(desc_names(patches@).to_set().contains(name@));
                }
            }
            lemma_push_fresh(desc_names(patches@), name@);
        }
        let ghost pre_applied = applied@;
        let ghost pre_patches = patches@;
        applied.push(name.duplicate());
        patches.push(new_desc);
        proof {
            assert(names_of(applied@) =~= names_of(pre_applied).push(name@));
            assert(desc_names(patches@) =~= desc_names(pre_patches).push(name@));
            assert(desc_map(patches@) =~= desc_map(pre_patches).insert(name@, oid));
            lemma_new_applied_wf(old(self)@, name@, oid);
        }
        let next = StackState { head: oid, prev, applied, unapplied, hidden, patches };
        proof {
            assert(next@ =~= spec_new_applied(old(self)@, name@, oid));
        }
        *self = next;
        Ok(())
    }

    /// Reapply a stored (unapplied or hidden) patch at the top of the
    /// stack, realized by the given commit — the outcome of merging the
    /// patch onto the current head; the head moves to that commit. Fails
    /// exactly when no patch of that name is stored.
    pub fn push_patch(&mut self, name: &PatchName, oid: Oid) -> (r: Result<(), Error>)
        ensures
            match r {
                Ok(()) => {
                    &&& old(self)@.unapplied.contains(name@) || old(self)@.hidden.contains(name@)
                    &&& final(self)@ =~= spec_push_patch(old(self)@, name@, oid)
                    &&& state_wf(final(self)@)
                },
                Err(e) => {
                    &&& !old(self)@.unapplied.contains(name@)
                    &&& !old(self)@.hidden.contains(name@)
                    &&& final(self)@ == old(self)@
                    &&& e matches Error::PatchNotFound(t) && t@ == name@
                },
            },
    {
        proof {
            use_type_invariant(&*self);
            use_type_invariant(name);
        }
        let dup = self.duplicate();
        proof {
            use_type_invariant(&dup);
        }
        let StackState { head: _, prev, mut applied, mut unapplied, mut hidden, mut patches } =
            dup;
        let in_unapplied = find_name(&unapplied, name);
        let in_hidden = find_name(&hidden, name);
        let ghost pre_un = unapplied@;
        let ghost pre_hid = hidden@;
        match in_unapplied {
            Some(i) => {
                unapplied.remove(i);
                proof {
                    lemma_names_remove(pre_un, i as int);
                    lemma_index_of_unique(names_of(pre_un), i as int, name@);
                    lemma_remove_unique(names_of(pre_un), i as int);
                    assert(names_of(unapplied@) =~= remove_first(names_of(pre_un), name@));
                    assert(!names_of(pre_hid).contains(name@));
                    assert(names_of(hidden@) =~= remove_first(names_of(pre_hid), name@));
                }
            },
            None => {
                match in_hidden {
                    Some(i) => {
                        hidden.remove(i);
                        proof {
                            lemma_names_remove(pre_hid, i as int);
                            lemma_index_of_unique(names_of(pre_hid), i as int, name@);
                            lemma_remove_unique(names_of(pre_hid), i as int);
                            assert(names_of(hidden@) =~= remove_first(names_of(pre_hid), name@));
                            assert(names_of(unapplied@) =~= remove_first(
                                names_of(pre_un),
                                name@,
                            ));
                        }
                    },
                    None => {
                        return Err(Error::PatchNotFound(name.to_text()));
                    },
                }
            },
        }
        // The name was stored, so it has a descriptor to update.
        let di = match desc_find(&patches, name) {
            Some(di) => di,
            None => {
                proof {
                    lemma_desc_map_dom(patches@);
                    assert(old(self)@.patches.dom().contains(name@));
                    assert(desc_names(patches@).to_set().contains(name@));
                }
                unreached()
            },
        };
        let ghost pre_patches = patches@;
        patches.remove(di);
        let new_desc = PatchDesc { name: name.duplicate(), oid };
        patches.push(new_desc);
        proof {
            lemma_desc_map_remove(pre_patches, di as int);
            lemma_remove_unique(desc_names(pre_patches), di as int);
            lemma_names_remove_descs(pre_patches, di as int);
            lemma_desc_map_push(pre_patches.remove(di as int), new_desc);
            lemma_push_fresh(desc_names(pre_patches.remove(di as int)), name@);
            assert(desc_map(patches@) =~= desc_map(pre_patches).remove(name@).insert(name@, oid));
            assert(desc_map(patches@) =~= desc_map(pre_patches).insert(name@, oid));
        }
        let ghost pre_applied = applied@;
        proof {
            assert(!names_of(pre_applied).contains(name@)) by {
                if names_of(pre_applied).contains(name@) {
                    assert(names_of(pre_applied).to_set().contains(name@));
                    assert(names_of(pre_un).contains(name@) || names_of(pre_hid).contains(
                        name@,
                    )) by {
                        assert(old(self)@.patches.dom().contains(name@));
                    }
                }
            }
            lemma_push_fresh(names_of(pre_applied), name@);
        }
        applied.push(name.duplicate());
        proof {
            assert(names_of(applied@) =~= names_of(pre_applied).push(name@));
            lemma_push_patch_wf(old(self)@, name@, oid);
            assert(names_of(unapplied@) == remove_first(old(self)@.unapplied, name@));
            assert(names_of(hidden@) == remove_first(old(self)@.hidden, name@));
        }
        let next = StackState { head: oid, prev, applied, unapplied, hidden, patches };
        proof {
            assert(next@ =~= spec_push_patch(old(self)@, name@, oid));
        }
        *self = next;
        Ok(())
    }
}

/// Law: popping the applied patches at and above an index preserves the
/// snapshot invariants.
pub proof fn lemma_pop_patches_wf(v: StackView, k: int, empty_head: Oid)
    requires
        state_wf(v),
        0 <= k <= v.applied.len(),
    ensures
        state_wf(spec_pop_patches(v, k, empty_head)),
{
    let r = spec_pop_patches(v, k, empty_head);
    lemma_split_unique(v.applied, k);
    let popped = v.applied.skip(k);
    assert forall|i: int, j: int|
        0 <= i < popped.len() && 0 <= j < v.unapplied.len() implies popped[i]
        != v.unapplied[j] by {
        assert(popped[i] == v.applied[k + i]);
    }
    lemma_concat_fresh(popped, v.unapplied);
    assert forall|i: int, j: int|
        0 <= i < r.applied.len() && 0 <= j < r.unapplied.len() implies r.applied[i]
        != r.unapplied[j] by {
        assert(r.applied[i] == v.applied[i]);
        if j < popped.len() {
            assert(r.unapplied[j] == v.applied[k + j]);
        } else {
            assert(r.unapplied[j] == v.unapplied[j - popped.len()]);
        }
    }
    assert forall|i: int, j: int|
        0 <= i < r.applied.len() && 0 <= j < r.hidden.len() implies r.applied[i] != r.hidden[j] by {
        assert(r.applied[i] == v.applied[i]);
    }
    assert forall|i: int, j: int|
        0 <= i < r.unapplied.len() && 0 <= j < r.hidden.len() implies r.unapplied[i]
        != r.hidden[j] by {
        if i < popped.len() {
            assert(r.unapplied[i] == v.applied[k + i]);
        } else {
            assert(r.unapplied[i] == v.unapplied[i - popped.len()]);
        }
    }
    assert(r.patches.dom() =~= r.applied.to_set() + r.unapplied.to_set() + r.hidden.to_set()) by {
        assert(r.applied.to_set() + r.unapplied.to_set() =~= v.applied.take(k).to_set() + (
        v.applied.skip(k).to_set() + v.unapplied.to_set()));
        assert(v.applied.take(k).to_set() + v.applied.skip(k).to_set() =~= v.applied.to_set());
    }
    if r.applied.len() > 0 {
        assert(r.applied.last() == v.applied[k - 1]);
        if k == v.applied.len() {
            assert(v.applied[k - 1] == v.applied.last());
        }
    }
}

/// The scan that finds the first applied index holding one of the given
/// names stops exactly at [`first_match_index`].
proof fn lemma_first_match(applied: Seq<Seq<char>>, names: Seq<Seq<char>>, i: int)
    requires
        0 <= i <= applied.len(),
        forall|j: int| 0 <= j < i ==> !names.contains(#[trigger] applied[j]),
        i == applied.len() || names.contains(applied[i]),
    ensures
        first_match_index(applied, names) == i,
    decreases applied.len(),
{
    if applied.len() == 0 {
    } else if names.contains(applied[0]) {
        assert(i == 0);
    } else {
        assert(forall|j: int|
            0 <= j < i - 1 ==> !names.contains(#[trigger] applied.drop_first()[j]));
        if i == applied.len() {
            lemma_first_match(applied.drop_first(), names, i - 1);
        } else {
            assert(i != 0);
            assert(applied.drop_first()[i - 1] == applied[i]);
            lemma_first_match(applied.drop_first(), names, i - 1);
        }
    }
}

/// Find the first applied index holding one of the given names; the length
/// when none does.
fn find_first_match(applied: &Vec<PatchName>, names: &Vec<PatchName>) -> (k: usize)
    ensures
        k <= applied@.len(),
        k as int == first_match_index(names_of(applied@), names_of(names@)),
{
    let mut i: usize = 0;
    while i < applied.len()
        invariant
            i <= applied@.len(),
            forall|j: int| 0 <= j < i ==> !names_of(names@).contains(#[trigger] names_of(applied@)[j]),
        decreases applied@.len() - i,
    {
        if names_contain(names, &applied[i]) {
            proof {
                lemma_first_match(names_of(applied@), names_of(names@), i as int);
            }
            return i;
        }
        i += 1;
    }
    proof {
        lemma_first_match(names_of(applied@), names_of(names@), applied@.len() as int);
    }
    applied.len()
}

impl StackState {
    /// Pop the topmost applied patches down to (and including) the first
    /// one bearing one of the given names: the popped names move to the
    /// front of unapplied in stack order, and the head returns to the
    /// remaining top — or to `empty_head`, the stack base, when nothing
    /// stays applied. Returns the popped patches that were not asked for.
    /// When no applied patch is named, nothing changes.
    pub fn pop_patches(&mut self, names: &Vec<PatchName>, empty_head: Oid) -> (r: Vec<PatchName>)
        ensures
            ({
                let v = old(self)@;
                let k = first_match_index(v.applied, names_of(names@));
                &&& final(self)@ =~= spec_pop_patches(v, k, empty_head)
                &&& state_wf(final(self)@)
                &&& names_of(r@) == extras_of(v.applied.skip(k), names_of(names@))
            }),
    {
        proof {
            use_type_invariant(&*self);
        }
        let k = find_first_match(&self.applied, names);
        let dup = self.duplicate();
        proof {
            use_type_invariant(&dup);
        }
        let StackState { head, prev, mut applied, unapplied, hidden, patches } = dup;
        let ghost pre_applied = names_of(applied@);
        let popped = applied.split_off(k);
        proof {
            assert(names_of(applied@) =~= pre_applied.take(k as int));
            assert(names_of(popped@) =~= pre_applied.skip(k as int));
        }
        let mut new_un: Vec<PatchName> = Vec::new();
        append_names(&mut new_un, &popped);
        append_names(&mut new_un, &unapplied);
        let mut extras: Vec<PatchName> = Vec::new();
        proof {
            reveal(Seq::filter);
            assert(names_of(extras@) =~= extras_of(
                names_of(popped@).take(0),
                names_of(names@),
            ));
        }
        let mut i: usize = 0;
        while i < popped.len()
            invariant
                i <= popped@.len(),
                names_of(extras@) =~= extras_of(
                    names_of(popped@).take(i as int),
                    names_of(names@),
                ),
            decreases popped@.len() - i,
        {
            proof {
                reveal(Seq::filter);
                assert(names_of(popped@).take(i + 1).drop_last() =~= names_of(popped@).take(
                    i as int,
                ));
                assert(names_of(popped@).take(i + 1).last() == names_of(popped@)[i as int]);
            }
            let ghost pre_extras = extras@;
            if !names_contain(names, &popped[i]) {
                extras.push(popped[i].duplicate());
                proof {
                    reveal(Seq::filter);
                    assert(names_of(extras@) =~= names_of(pre_extras).push(
                        names_of(popped@)[i as int],
                    ));
                    assert(names_of(extras@) =~= extras_of(
                        names_of(popped@).take(i + 1),
                        names_of(names@),
                    ));
                }
            } else {
                proof {
                    reveal(Seq::filter);
                    assert(names_of(extras@) =~= extras_of(
                        names_of(popped@).take(i + 1),
                        names_of(names@),
                    ));
                }
            }
            i += 1;
        }
        assert(names_of(popped@).take(popped@.len() as int) =~= names_of(popped@));
        let new_head = if applied.len() > 0 {
            let top_oid = match self.patch_oid(&applied[applied.len() - 1]) {
                Some(oid) => oid,
                None => {
                    proof {
                        let v = old(self)@;
                        assert(v.applied.contains(v.applied[k - 1])) by {
                            assert(0 <= k - 1 < v.applied.len());
                        }
                    }
                    unreached()
                },
            };
            top_oid
        } else if popped.len() > 0 {
            empty_head
        } else {
            head
        };
        proof {
            lemma_pop_patches_wf(old(self)@, k as int, empty_head);
            if k > 0 && (k as int) < old(self)@.applied.len() {
                assert(names_of(applied@)[k - 1] == old(self)@.applied[k - 1]);
            }
            if k as int == old(self)@.applied.len() && k > 0 {
                assert(old(self)@.applied[k - 1] == old(self)@.applied.last());
            }
        }
        let next = StackState { head: new_head, prev, applied, unapplied: new_un, hidden, patches };
        proof {
            assert(next@ =~= spec_pop_patches(old(self)@, k as int, empty_head));
        }
        *self = next;
        extras
    }
}

/// What replacing the commit of an existing patch yields: the head follows
/// when the patch is the applied top.
pub open spec fn spec_update_patch(v: StackView, n: Seq<char>, oid: Oid) -> StackView {
    StackView {
        head: if v.applied.len() > 0 && v.applied.last() == n {
            oid
        } else {
            v.head
        },
        patches: v.patches.insert(n, oid),
        ..v
    }
}

/// Law: replacing the commit of an existing patch preserves the snapshot
/// invariants.
pub proof fn lemma_update_patch_wf(v: StackView, n: Seq<char>, oid: Oid)
    requires
        state_wf(v),
        v.patches.dom().contains(n),
    ensures
        state_wf(spec_update_patch(v, n, oid)),
{
    let r = spec_update_patch(v, n, oid);
    assert(r.patches.dom() =~= v.patches.dom());
    assert forall|y: Seq<char>| r.patches.dom().contains(y) implies valid_name(y) by {
        assert(v.patches.dom().contains(y));
    }
}

/// What renaming a patch yields: the name changes in place in whichever
/// sequence holds it, and the patch table re-keys the same commit.
pub open spec fn spec_rename_patch(v: StackView, o: Seq<char>, n: Seq<char>) -> StackView {
    StackView {
        applied: replace_name(v.applied, o, n),
        unapplied: replace_name(v.unapplied, o, n),
        hidden: replace_name(v.hidden, o, n),
        patches: v.patches.remove(o).insert(n, v.patches[o]),
        ..v
    }
}

/// Replacing an element of a duplicate-free sequence by a fresh one keeps
/// it duplicate-free and swaps the two in the element set.
pub proof fn lemma_replace_unique<A>(s: Seq<A>, i: int, x: A)
    requires
        s.no_duplicates(),
        !s.contains(x),
        0 <= i < s.len(),
    ensures
        s.update(i, x).no_duplicates(),
        s.update(i, x).to_set() =~= s.to_set().remove(s[i]).insert(x),
        s.update(i, x).contains(x),
    decreases s.len(),
{
    let r = s.update(i, x);
    assert forall|a: int, b: int| 0 <= a < r.len() && 0 <= b < r.len() && a != b implies r[a]
        != r[b] by {
        if a != i && b != i {
            assert(s[a] != s[b]);
        } else if a == i {
            assert(!s.contains(x));
            if r[b] == x {
                assert(s[b] == x);
            }
        } else {
            if r[a] == x {
                assert(s[a] == x);
            }
        }
    }
    assert forall|y: A| r.to_set().contains(y) implies s.to_set().remove(s[i]).insert(x).contains(
        y,
    ) by {
        let j = choose|j: int| 0 <= j < r.len() && r[j] == y;
        if j != i {
            assert(s[j] == y);
            assert(s[j] != s[i]);
        }
    }
    assert forall|y: A| s.to_set().remove(s[i]).insert(x).contains(y) implies r.to_set().contains(
        y,
    ) by {
        if y == x {
            assert(r[i] == x);
        } else {
            let j = choose|j: int| 0 <= j < s.len() && s[j] == y;
            assert(j != i);
            assert(r[j] == y);
        }
    }
    assert(r[i] == x);
}

/// Law: renaming a patch to a fresh valid name preserves the snapshot
/// invariants.
pub proof fn lemma_rename_patch_wf(v: StackView, o: Seq<char>, n: Seq<char>)
    requires
        state_wf(v),
        v.patches.dom().contains(o),
        !v.patches.dom().contains(n),
        valid_name(n),
    ensures
        state_wf(spec_rename_patch(v, o, n)),
{
    let r = spec_rename_patch(v, o, n);
    lemma_dom_split(v, o);
    lemma_dom_split(v, n);
    if v.applied.contains(o) {
        let i = v.applied.index_of(o);
        assert(0 <= i < v.applied.len() && v.applied[i] == o) by {
            assert(exists|j: int| 0 <= j < v.applied.len() && v.applied[j] == o);
        }
        lemma_replace_unique(v.applied, i, n);
        assert(!v.unapplied.contains(o)) by {
            if v.unapplied.contains(o) {
                let j = choose|j: int| 0 <= j < v.unapplied.len() && v.unapplied[j] == o;
                assert(v.applied[i] != v.unapplied[j]);
            }
        }
        assert(!v.hidden.contains(o)) by {
            if v.hidden.contains(o) {
                let j = choose|j: int| 0 <= j < v.hidden.len() && v.hidden[j] == o;
                assert(v.applied[i] != v.hidden[j]);
            }
        }
        assert(r.unapplied == v.unapplied);
        assert(r.hidden == v.hidden);
        assert forall|a: int, b: int|
            0 <= a < r.applied.len() && 0 <= b < r.unapplied.len() implies r.applied[a]
            != r.unapplied[b] by {
            if a != i {
                assert(r.applied[a] == v.applied[a]);
            } else {
                if v.unapplied[b] == n {
                    assert(v.unapplied.contains(n));
                }
            }
        }
        assert forall|a: int, b: int|
            0 <= a < r.applied.len() && 0 <= b < r.hidden.len() implies r.applied[a]
            != r.hidden[b] by {
            if a != i {
                assert(r.applied[a] == v.applied[a]);
            } else {
                if v.hidden[b] == n {
                    assert(v.hidden.contains(n));
                }
            }
        }
        assert(r.patches.dom() =~= r.applied.to_set() + r.unapplied.to_set() + r.hidden.to_set());
        if r.applied.len() > 0 {
            if i == v.applied.len() - 1 {
                assert(r.applied.last() == n);
                assert(r.patches[n] == v.patches[o]);
            } else {
                assert(r.applied.last() == v.applied.last());
                assert(v.applied.last() != o) by {
                    assert(v.applied[i] == o);
                }
                assert(v.applied.last() != n) by {
                    if v.applied.last() == n {
                        assert(v.applied.contains(n));
                    }
                }
            }
        }
    } else if v.unapplied.contains(o) {
        let i = v.unapplied.index_of(o);
        assert(0 <= i < v.unapplied.len() && v.unapplied[i] == o) by {
            assert(exists|j: int| 0 <= j < v.unapplied.len() && v.unapplied[j] == o);
        }
        lemma_replace_unique(v.unapplied, i, n);
        assert(!v.applied.contains(o)) by {
            if v.applied.contains(o) {
                let j = choose|j: int| 0 <= j < v.applied.len() && v.applied[j] == o;
                assert(v.applied[j] != v.unapplied[i]);
            }
        }
        assert(!v.hidden.contains(o)) by {
            if v.hidden.contains(o) {
                let j = choose|j: int| 0 <= j < v.hidden.len() && v.hidden[j] == o;
                assert(v.unapplied[i] != v.hidden[j]);
            }
        }
        assert(r.applied == v.applied);
        assert(r.hidden == v.hidden);
        assert forall|a: int, b: int|
            0 <= a < r.applied.len() && 0 <= b < r.unapplied.len() implies r.applied[a]
            != r.unapplied[b] by {
            if b != i {
                assert(r.unapplied[b] == v.unapplied[b]);
            } else {
                if v.applied[a] == n {
                    assert(v.applied.contains(n));
                }
            }
        }
        assert forall|a: int, b: int|
            0 <= a < r.unapplied.len() && 0 <= b < r.hidden.len() implies r.unapplied[a]
            != r.hidden[b] by {
            if a != i {
                assert(r.unapplied[a] == v.unapplied[a]);
            } else {
                if v.hidden[b] == n {
                    assert(v.hidden.contains(n));
                }
            }
        }
        assert(r.patches.dom() =~= r.applied.to_set() + r.unapplied.to_set() + r.hidden.to_set());
        if r.applied.len() > 0 {
            assert(v.applied.last() != o);
            assert(v.applied.last() != n) by {
                if v.applied.last() == n {
                    assert(v.applied.contains(n));
                }
            }
        }
    } else {
        let i = v.hidden.index_of(o);
        assert(v.hidden.contains(o));
        assert(0 <= i < v.hidden.len() && v.hidden[i] == o) by {
            assert(exists|j: int| 0 <= j < v.hidden.len() && v.hidden[j] == o);
        }
        lemma_replace_unique(v.hidden, i, n);
        assert(!v.applied.contains(o)) by {
            if v.applied.contains(o) {
                let j = choose|j: int| 0 <= j < v.applied.len() && v.applied[j] == o;
                assert(v.applied[j] != v.hidden[i]);
            }
        }
        assert(!v.unapplied.contains(o)) by {
            if v.unapplied.contains(o) {
                let j = choose|j: int| 0 <= j < v.unapplied.len() && v.unapplied[j] == o;
                assert(v.unapplied[j] != v.hidden[i]);
            }
        }
        assert(r.applied == v.applied);
        assert(r.unapplied == v.unapplied);
        assert forall|a: int, b: int|
            0 <= a < r.applied.len() && 0 <= b < r.hidden.len() implies r.applied[a]
            != r.hidden[b] by {
            if b != i {
                assert(r.hidden[b] == v.hidden[b]);
            } else {
                if v.applied[a] == n {
                    assert(v.applied.contains(n));
                }
            }
        }
        assert forall|a: int, b: int|
            0 <= a < r.unapplied.len() && 0 <= b < r.hidden.len() implies r.unapplied[a]
            != r.hidden[b] by {
            if b != i {
                assert(r.hidden[b] == v.hidden[b]);
            } else {
                if v.unapplied[a] == n {
                    assert(v.unapplied.contains(n));
                }
            }
        }
        assert(r.patches.dom() =~= r.applied.to_set() + r.unapplied.to_set() + r.hidden.to_set());
        if r.applied.len() > 0 {
            assert(v.applied.last() != o);
            assert(v.applied.last() != n) by {
                if v.applied.last() == n {
                    assert(v.applied.contains(n));
                }
            }
        }
    }
    assert forall|y: Seq<char>| r.patches.dom().contains(y) implies valid_name(y) by {
        if y != n {
            assert(v.patches.dom().contains(y));
        }
    }
}

/// Removing a descriptor removes its name, pointwise.
pub proof fn lemma_names_remove_descs(s: Seq<PatchDesc>, i: int)
    requires
        0 <= i < s.len(),
    ensures
        desc_names(s.remove(i)) =~= desc_names(s).remove(i),
{
    s.remove_ensures(i);
    desc_names(s).remove_ensures(i);
}

impl StackState {
    /// Replace the commit recorded for an existing patch; the head follows
    /// when that patch is the applied top. Fails exactly when no patch of
    /// that name exists.
    pub fn update_patch(&mut self, name: &PatchName, oid: Oid) -> (r: Result<(), Error>)
        ensures
            match r {
                Ok(()) => {
                    &&& old(self)@.patches.dom().contains(name@)
                    &&& final(self)@ =~= spec_update_patch(old(self)@, name@, oid)
                    &&& state_wf(final(self)@)
                },
                Err(e) => {
                    &&& !old(self)@.patches.dom().contains(name@)
                    &&& final(self)@ == old(self)@
                    &&& e matches Error::PatchNotFound(t) && t@ == name@
                },
            },
    {
        proof {
            use_type_invariant(&*self);
        }
        let dup = self.duplicate();
        proof {
            use_type_invariant(&dup);
        }
        let StackState { head, prev, applied, unapplied, hidden, mut patches } = dup;
        let di = match desc_find(&patches, name) {
            Some(di) => di,
            None => {
                proof {
                    lemma_desc_map_dom(patches@);
                }
                return Err(Error::PatchNotFound(name.to_text()));
            },
        };
        let ghost pre_patches = patches@;
        patches.remove(di);
        let new_desc = PatchDesc { name: name.duplicate(), oid };
        patches.push(new_desc);
        proof {
            lemma_desc_map_dom(pre_patches);
            lemma_desc_map_remove(pre_patches, di as int);
            lemma_remove_unique(desc_names(pre_patches), di as int);
            lemma_names_remove_descs(pre_patches, di as int);
            lemma_desc_map_push(pre_patches.remove(di as int), new_desc);
            lemma_push_fresh(desc_names(pre_patches.remove(di as int)), name@);
            assert(desc_map(patches@) =~= desc_map(pre_patches).insert(name@, oid));
            lemma_update_patch_wf(old(self)@, name@, oid);
        }
        let is_top = applied.len() > 0 && applied[applied.len() - 1].same_as(name);
        let new_head = if is_top {
            oid
        } else {
            head
        };
        let next = StackState { head: new_head, prev, applied, unapplied, hidden, patches };
        proof {
            assert(next@ =~= spec_update_patch(old(self)@, name@, oid));
        }
        *self = next;
        Ok(())
    }

    /// Rename an existing patch in place. Fails with `PatchNotFound` when
    /// no patch bears the old name, and with `PatchNameExists` when one
    /// already bears the new name.
    pub fn rename_patch(&mut self, old_name: &PatchName, new_name: &PatchName) -> (r: Result<
        (),
        Error,
    >)
        ensures
            match r {
                Ok(()) => {
                    &&& old(self)@.patches.dom().contains(old_name@)
                    &&& !old(self)@.patches.dom().contains(new_name@)
                    &&& final(self)@ =~= spec_rename_patch(old(self)@, old_name@, new_name@)
                    &&& state_wf(final(self)@)
                },
                Err(e) => {
                    &&& final(self)@ == old(self)@
                    &&& match e {
                        Error::PatchNotFound(t) => !old(self)@.patches.dom().contains(old_name@)
                            && t@ == old_name@,
                        Error::PatchNameExists(t) => old(self)@.patches.dom().contains(old_name@)
                            && old(self)@.patches.dom().contains(new_name@) && t@ == new_name@,
                        _ => false,
                    }
                },
            },
    {
        proof {
            use_type_invariant(&*self);
            use_type_invariant(new_name);
        }
        let dup = self.duplicate();
        proof {
            use_type_invariant(&dup);
        }
        let StackState { head, prev, mut applied, mut unapplied, mut hidden, mut patches } = dup;
        let di = match desc_find(&patches, old_name) {
            Some(di) => di,
            None => {
                proof {
                    lemma_desc_map_dom(patches@);
                }
                return Err(Error::PatchNotFound(old_name.to_text()));
            },
        };
        match desc_find(&patches, new_name) {
            Some(_) => {
                proof {
                    lemma_desc_map_dom(patches@);
                    lemma_desc_map_at(patches@, di as int);
                }
                return Err(Error::PatchNameExists(new_name.to_text()));
            },
            None => {},
        }
        proof {
            lemma_desc_map_dom(patches@);
            lemma_desc_map_at(patches@, di as int);
        }
        let oid = patches[di].oid;
        let ghost pre_patches = patches@;
        patches.remove(di);
        let new_desc = PatchDesc { name: new_name.duplicate(), oid };
        patches.push(new_desc);
        proof {
            lemma_desc_map_remove(pre_patches, di as int);
            lemma_remove_unique(desc_names(pre_patches), di as int);
            lemma_names_remove_descs(pre_patches, di as int);
            lemma_desc_map_push(pre_patches.remove(di as int), new_desc);
            assert(!desc_names(pre_patches.remove(di as int)).contains(new_name@)) by {
                lemma_desc_map_dom(pre_patches.remove(di as int));
            }
            lemma_push_fresh(desc_names(pre_patches.remove(di as int)), new_name@);
            assert(desc_map(patches@) =~= desc_map(pre_patches).remove(old_name@).insert(
                new_name@,
                oid,
            ));
        }
        rename_in_list(&mut applied, old_name, new_name);
        rename_in_list(&mut unapplied, old_name, new_name);
        rename_in_list(&mut hidden, old_name, new_name);
        proof {
            lemma_rename_patch_wf(old(self)@, old_name@, new_name@);
        }
        let next = StackState { head, prev, applied, unapplied, hidden, patches };
        proof {
            assert(next@ =~= spec_rename_patch(old(self)@, old_name@, new_name@));
        }
        *self = next;
        Ok(())
    }
}

/// What deleting a patch yields: the name leaves its sequence and the
/// patch table; when it was the applied top, the head returns to the patch
/// below it (or to `empty_head`, the stack base, when none is left).
pub open spec fn spec_delete_patch(v: StackView, n: Seq<char>, empty_head: Oid) -> StackView {
    StackView {
        head: if v.applied.len() > 0 && v.applied.last() == n {
            if v.applied.len() > 1 {
                v.patches[v.applied[v.applied.len() - 2]]
            } else {
                empty_head
            }
        } else {
            v.head
        },
        applied: remove_first(v.applied, n),
        unapplied: remove_first(v.unapplied, n),
        hidden: remove_first(v.hidden, n),
        patches: v.patches.remove(n),
        ..v
    }
}

/// Law: deleting a patch preserves the snapshot invariants.
pub proof fn lemma_delete_patch_wf(v: StackView, n: Seq<char>, empty_head: Oid)
    requires
        state_wf(v),
        v.patches.dom().contains(n),
    ensures
        state_wf(spec_delete_patch(v, n, empty_head)),
{
    let r = spec_delete_patch(v, n, empty_head);
    lemma_dom_split(v, n);
    if v.applied.contains(n) {
        let i = v.applied.index_of(n);
        assert(0 <= i < v.applied.len() && v.applied[i] == n) by {
            assert(exists|j: int| 0 <= j < v.applied.len() && v.applied[j] == n);
        }
        lemma_remove_unique(v.applied, i);
        assert(!v.unapplied.contains(n)) by {
            if v.unapplied.contains(n) {
                let j = choose|j: int| 0 <= j < v.unapplied.len() && v.unapplied[j] == n;
                assert(v.applied[i] != v.unapplied[j]);
            }
        }
        assert(!v.hidden.contains(n)) by {
            if v.hidden.contains(n) {
                let j = choose|j: int| 0 <= j < v.hidden.len() && v.hidden[j] == n;
                assert(v.applied[i] != v.hidden[j]);
            }
        }
        assert(r.applied == v.applied.remove(i));
        assert(r.unapplied == v.unapplied);
        assert(r.hidden == v.hidden);
        assert forall|a: int, b: int|
            0 <= a < r.applied.len() && 0 <= b < r.unapplied.len() implies r.applied[a]
            != r.unapplied[b] by {
            assert(v.applied.contains(r.applied[a]));
            let c = choose|c: int| 0 <= c < v.applied.len() && v.applied[c] == r.applied[a];
            assert(v.applied[c] != v.unapplied[b]);
        }
        assert forall|a: int, b: int|
            0 <= a < r.applied.len() && 0 <= b < r.hidden.len() implies r.applied[a]
            != r.hidden[b] by {
            assert(v.applied.contains(r.applied[a]));
            let c = choose|c: int| 0 <= c < v.applied.len() && v.applied[c] == r.applied[a];
            assert(v.applied[c] != v.hidden[b]);
        }
        assert(r.patches.dom() =~= r.applied.to_set() + r.unapplied.to_set() + r.hidden.to_set());
        if r.applied.len() > 0 {
            if i == v.applied.len() - 1 {
                assert(v.applied.last() == n);
                assert(r.applied.last() == v.applied[v.applied.len() - 2]) by {
                    v.applied.remove_ensures(i);
                }
                assert(r.applied.last() != n);
            } else {
                assert(v.applied.last() != n) by {
                    assert(v.applied[i] == n);
                }
                assert(r.applied.last() == v.applied.last()) by {
                    v.applied.remove_ensures(i);
                }
            }
        }
    } else {
        assert(remove_first(v.applied, n) == v.applied);
        if v.unapplied.contains(n) {
            let i = v.unapplied.index_of(n);
            assert(0 <= i < v.unapplied.len() && v.unapplied[i] == n) by {
                assert(exists|j: int| 0 <= j < v.unapplied.len() && v.unapplied[j] == n);
            }
            lemma_remove_unique(v.unapplied, i);
            assert(!v.hidden.contains(n)) by {
                if v.hidden.contains(n) {
                    let j = choose|j: int| 0 <= j < v.hidden.len() && v.hidden[j] == n;
                    assert(v.unapplied[i] != v.hidden[j]);
                }
            }
            assert(r.hidden == v.hidden);
            assert forall|a: int, b: int|
                0 <= a < r.applied.len() && 0 <= b < r.unapplied.len() implies r.applied[a]
                != r.unapplied[b] by {
                assert(v.unapplied.contains(r.unapplied[b]));
                let c = choose|c: int| 0 <= c < v.unapplied.len() && v.unapplied[c] == r.unapplied[b];
                assert(v.applied[a] != v.unapplied[c]);
            }
            assert forall|a: int, b: int|
                0 <= a < r.unapplied.len() && 0 <= b < r.hidden.len() implies r.unapplied[a]
                != r.hidden[b] by {
                assert(v.unapplied.contains(r.unapplied[a]));
                let c = choose|c: int| 0 <= c < v.unapplied.len() && v.unapplied[c] == r.unapplied[a];
                assert(v.unapplied[c] != v.hidden[b]);
            }
            assert(r.patches.dom() =~= r.applied.to_set() + r.unapplied.to_set()
                + r.hidden.to_set());
        } else {
            let i = v.hidden.index_of(n);
            assert(v.hidden.contains(n));
            assert(0 <= i < v.hidden.len() && v.hidden[i] == n) by {
                assert(exists|j: int| 0 <= j < v.hidden.len() && v.hidden[j] == n);
            }
            lemma_remove_unique(v.hidden, i);
            assert(r.unapplied == v.unapplied);
            assert forall|a: int, b: int|
                0 <= a < r.applied.len() && 0 <= b < r.hidden.len() implies r.applied[a]
                != r.hidden[b] by {
                assert(v.hidden.contains(r.hidden[b]));
                let c = choose|c: int| 0 <= c < v.hidden.len() && v.hidden[c] == r.hidden[b];
                assert(v.applied[a] != v.hidden[c]);
            }
            assert forall|a: int, b: int|
                0 <= a < r.unapplied.len() && 0 <= b < r.hidden.len() implies r.unapplied[a]
                != r.hidden[b] by {
                assert(v.hidden.contains(r.hidden[b]));
                let c = choose|c: int| 0 <= c < v.hidden.len() && v.hidden[c] == r.hidden[b];
                assert(v.unapplied[a] != v.hidden[c]);
            }
            assert(r.patches.dom() =~= r.applied.to_set() + r.unapplied.to_set()
                + r.hidden.to_set());
        }
        if r.applied.len() > 0 {
            assert(r.applied.last() == v.applied.last());
            assert(v.applied.last() != n) by {
                if v.applied.last() == n {
                    assert(v.applied.contains(n));
                }
            }
        }
    }
    assert forall|y: Seq<char>| r.patches.dom().contains(y) implies valid_name(y) by {
        assert(v.patches.dom().contains(y));
    }
}

/// What finalizing the bottom `k` applied patches into base history
/// yields: they leave the stack, their commits remaining as ordinary
/// ancestors; the head and everything else stay.
pub open spec fn spec_commit_patches(v: StackView, k: int) -> StackView {
    StackView {
        applied: v.applied.skip(k),
        patches: v.patches.remove_keys(v.applied.take(k).to_set()),
        ..v
    }
}

/// Law: committing the bottom applied patches preserves the snapshot
/// invariants.
pub proof fn lemma_commit_patches_wf(v: StackView, k: int)
    requires
        state_wf(v),
        0 <= k <= v.applied.len(),
    ensures
        state_wf(spec_commit_patches(v, k)),
{
    let r = spec_commit_patches(v, k);
    lemma_split_unique(v.applied, k);
    assert forall|a: int, b: int|
        0 <= a < r.applied.len() && 0 <= b < v.unapplied.len() implies r.applied[a]
        != v.unapplied[b] by {
        assert(r.applied[a] == v.applied[k + a]);
    }
    assert forall|a: int, b: int|
        0 <= a < r.applied.len() && 0 <= b < v.hidden.len() implies r.applied[a]
        != v.hidden[b] by {
        assert(r.applied[a] == v.applied[k + a]);
    }
    assert(r.patches.dom() =~= r.applied.to_set() + r.unapplied.to_set() + r.hidden.to_set()) by {
        assert forall|y: Seq<char>| r.patches.dom().contains(y) implies (r.applied.to_set()
            + r.unapplied.to_set() + r.hidden.to_set()).contains(y) by {
            assert(v.patches.dom().contains(y));
            if v.applied.contains(y) {
                assert(!v.applied.take(k).contains(y));
                assert(v.applied.take(k).to_set() + v.applied.skip(k).to_set()
                    =~= v.applied.to_set());
            }
        }
        assert forall|y: Seq<char>| (r.applied.to_set() + r.unapplied.to_set()
            + r.hidden.to_set()).contains(y) implies r.patches.dom().contains(y) by {
            if r.applied.contains(y) {
                let a = choose|a: int| 0 <= a < r.applied.len() && r.applied[a] == y;
                assert(v.applied[k + a] == y);
                if v.applied.take(k).contains(y) {
                    let b = choose|b: int| 0 <= b < k && v.applied[b] == y;
                    assert(v.applied[b] == v.applied[k + a]);
                }
            } else {
                if v.applied.take(k).contains(y) {
                    let b = choose|b: int| 0 <= b < k && v.applied[b] == y;
                    if r.unapplied.contains(y) {
                        let c = choose|c: int| 0 <= c < v.unapplied.len() && v.unapplied[c] == y;
                        assert(v.applied[b] != v.unapplied[c]);
                    } else {
                        let c = choose|c: int| 0 <= c < v.hidden.len() && v.hidden[c] == y;
                        assert(v.applied[b] != v.hidden[c]);
                    }
                }
            }
        }
    }
    assert forall|y: Seq<char>| r.patches.dom().contains(y) implies valid_name(y) by {
        assert(v.patches.dom().contains(y));
    }
    if r.applied.len() > 0 {
        assert(r.applied.last() == v.applied.last());
        assert(!v.applied.take(k).contains(v.applied.last())) by {
            if v.applied.take(k).contains(v.applied.last()) {
                let b = choose|b: int| 0 <= b < k && v.applied[b] == v.applied.last();
                assert(v.applied[b] == v.applied[v.applied.len() - 1]);
            }
        }
    }
}

/// What reinstating finalized patches at the bottom of the stack yields:
/// their descriptors return to the front of applied and to the patch
/// table; the head and everything else stay.
pub open spec fn spec_uncommit_patches(v: StackView, descs: Seq<PatchDesc>) -> StackView {
    StackView {
        applied: desc_names(descs) + v.applied,
        patches: v.patches.union_prefer_right(desc_map(descs)),
        ..v
    }
}

/// Law: committing the bottom `k` applied patches and then reinstating the
/// very same descriptors restores the snapshot: the same applied list and
/// the same commit for every patch.
pub proof fn lemma_commit_uncommit_round_trip(v: StackView, k: int, descs: Seq<PatchDesc>)
    requires
        state_wf(v),
        0 <= k <= v.applied.len(),
        desc_names(descs) == v.applied.take(k),
        forall|i: int|
            0 <= i < descs.len() ==> #[trigger] descs[i].oid == v.patches[desc_names(descs)[i]],
    ensures
        spec_uncommit_patches(spec_commit_patches(v, k), descs) =~= v,
{
    let mid = spec_commit_patches(v, k);
    let r = spec_uncommit_patches(mid, descs);
    lemma_split_unique(v.applied, k);
    lemma_desc_map_dom(descs);
    assert(r.applied =~= v.applied) by {
        assert(v.applied.take(k) + v.applied.skip(k) =~= v.applied);
    }
    assert(r.patches =~= v.patches) by {
        assert forall|y: Seq<char>| #![auto] v.patches.dom().contains(y) implies
            r.patches.dom().contains(y) && r.patches[y] == v.patches[y] by {
            if desc_names(descs).contains(y) {
                let i = choose|i: int|
                    0 <= i < desc_names(descs).len() && desc_names(descs)[i] == y;
                lemma_desc_map_at(descs, i);
                assert(desc_map(descs)[y] == descs[i].oid);
            } else {
                assert(!v.applied.take(k).to_set().contains(y));
            }
        }
        assert forall|y: Seq<char>| #![auto] r.patches.dom().contains(y) implies
            v.patches.dom().contains(y) by {
            if desc_map(descs).dom().contains(y) {
                let i = choose|i: int|
                    0 <= i < desc_names(descs).len() && desc_names(descs)[i] == y;
                assert(v.applied.take(k)[i] == y);
                assert(v.applied.contains(y)) by {
                    assert(v.applied[i] == y);
                }
                assert(v.applied.to_set().contains(y));
            }
        }
    }
}

impl StackState {
    /// Delete a patch from the stack entirely. When it was the applied
    /// top, the head returns to the patch below it, or to `empty_head`
    /// (the stack base) when none is left. Fails exactly when no patch of
    /// that name exists.
    pub fn delete_patch(&mut self, name: &PatchName, empty_head: Oid) -> (r: Result<(), Error>)
        ensures
            match r {
                Ok(()) => {
                    &&& old(self)@.patches.dom().contains(name@)
                    &&& final(self)@ =~= spec_delete_patch(old(self)@, name@, empty_head)
                    &&& state_wf(final(self)@)
                },
                Err(e) => {
                    &&& !old(self)@.patches.dom().contains(name@)
                    &&& final(self)@ == old(self)@
                    &&& e matches Error::PatchNotFound(t) && t@ == name@
                },
            },
    {
        proof {
            use_type_invariant(&*self);
        }
        let dup = self.duplicate();
        proof {
            use_type_invariant(&dup);
        }
        let StackState { head, prev, mut applied, mut unapplied, mut hidden, mut patches } = dup;
        let di = match desc_find(&patches, name) {
            Some(di) => di,
            None => {
                proof {
                    lemma_desc_map_dom(patches@);
                }
                return Err(Error::PatchNotFound(name.to_text()));
            },
        };
        proof {
            lemma_desc_map_dom(patches@);
        }
        let was_top = applied.len() > 0 && applied[applied.len() - 1].same_as(name);
        let new_head = if was_top {
            if applied.len() > 1 {
                match self.patch_oid(&applied[applied.len() - 2]) {
                    Some(oid) => oid,
                    None => {
                        proof {
                            let v = old(self)@;
                            assert(v.applied.contains(v.applied[v.applied.len() - 2]));
                        }
                        unreached()
                    },
                }
            } else {
                empty_head
            }
        } else {
            head
        };
        let ghost pre_patches = patches@;
        patches.remove(di);
        proof {
            lemma_desc_map_remove(pre_patches, di as int);
            lemma_remove_unique(desc_names(pre_patches), di as int);
            lemma_names_remove_descs(pre_patches, di as int);
        }
        remove_from_list(&mut applied, name);
        remove_from_list(&mut unapplied, name);
        remove_from_list(&mut hidden, name);
        proof {
            lemma_delete_patch_wf(old(self)@, name@, empty_head);
        }
        let next = StackState { head: new_head, prev, applied, unapplied, hidden, patches };
        proof {
            assert(next@ =~= spec_delete_patch(old(self)@, name@, empty_head));
        }
        *self = next;
        Ok(())
    }

    /// Finalize the bottom applied patches into base history: the given
    /// names, which must spell out the bottom of the applied sequence in
    /// order, leave the stack; their commits remain as ordinary ancestors
    /// of what is still applied, and the head does not move.
    pub fn commit_patches(&mut self, names: &Vec<PatchName>)
        requires
            names@.len() <= old(self)@.applied.len(),
            names_of(names@) == old(self)@.applied.take(names@.len() as int),
        ensures
            final(self)@ =~= spec_commit_patches(old(self)@, names@.len() as int),
            state_wf(final(self)@),
    {
        proof {
            use_type_invariant(&*self);
        }
        let dup = self.duplicate();
        proof {
            use_type_invariant(&dup);
        }
        let StackState { head, prev, mut applied, unapplied, hidden, mut patches } = dup;
        let k = names.len();
        let rest = applied.split_off(k);
        proof {
            assert(names_of(rest@) =~= old(self)@.applied.skip(k as int));
            lemma_split_unique(old(self)@.applied, k as int);
        }
        let ghost all_pre = patches@;
        let mut i: usize = 0;
        while i < names.len()
            invariant
                i <= names@.len(),
                names@.len() <= old(self)@.applied.len(),
                names_of(names@) == old(self)@.applied.take(names@.len() as int),
                state_wf(old(self)@),
                old(self)@.applied.no_duplicates(),
                desc_names(patches@).no_duplicates(),
                desc_map(patches@) =~= desc_map(all_pre).remove_keys(
                    names_of(names@).take(i as int).to_set(),
                ),
                desc_map(all_pre) == old(self)@.patches,
            decreases names@.len() - i,
        {
            proof {
                assert(names_of(names@)[i as int] == old(self)@.applied[i as int]);
            }
            let di = match desc_find(&patches, &names[i]) {
                Some(di) => di,
                None => {
                    proof {
                        lemma_desc_map_dom(patches@);
                        let v = old(self)@;
                        let n = names_of(names@)[i as int];
                        assert(v.patches.dom().contains(n)) by {
                            assert(v.applied.contains(n)) by {
                                assert(v.applied[i as int] == n);
                            }
                        }
                        assert(!names_of(names@).take(i as int).to_set().contains(n)) by {
                            if names_of(names@).take(i as int).contains(n) {
                                let j = choose|j: int|
                                    0 <= j < i && names_of(names@).take(i as int)[j] == n;
                                assert(v.applied[j] == v.applied[i as int]);
                            }
                        }
                        assert(desc_map(patches@).dom().contains(n));
                    }
                    unreached()
                },
            };
            let ghost pre = patches@;
            patches.remove(di);
            proof {
                lemma_desc_map_remove(pre, di as int);
                lemma_remove_unique(desc_names(pre), di as int);
                lemma_names_remove_descs(pre, di as int);
                let n = names_of(names@)[i as int];
                assert(names_of(names@).take(i + 1).drop_last() =~= names_of(names@).take(
                    i as int,
                ));
                assert(names_of(names@).take(i + 1).to_set() =~= names_of(names@).take(
                    i as int,
                ).to_set().insert(n)) by {
                    assert forall|y: Seq<char>|
                        names_of(names@).take(i + 1).to_set().contains(y) implies names_of(
                        names@,
                    ).take(i as int).to_set().insert(n).contains(y) by {
                        let j = choose|j: int|
                            0 <= j < i + 1 && #[trigger] names_of(names@).take(i + 1)[j] == y;
                        if j < i {
                            assert(names_of(names@).take(i as int)[j] == y);
                        }
                    }
                    assert forall|y: Seq<char>|
                        names_of(names@).take(i as int).to_set().insert(n).contains(
                            y,
                        ) implies names_of(names@).take(i + 1).to_set().contains(y) by {
                        if y == n {
                            assert(names_of(names@).take(i + 1)[i as int] == n);
                        } else {
                            let j = choose|j: int|
                                0 <= j < i && names_of(names@).take(i as int)[j] == y;
                            assert(names_of(names@).take(i + 1)[j] == y);
                        }
                    }
                }
                assert(desc_map(patches@) =~= desc_map(all_pre).remove_keys(
                    names_of(names@).take(i + 1).to_set(),
                ));
            }
            i += 1;
        }
        proof {
            assert(names_of(names@).take(names@.len() as int) =~= names_of(names@));
            lemma_commit_patches_wf(old(self)@, k as int);
        }
        let next = StackState { head, prev, applied: rest, unapplied, hidden, patches };
        proof {
            assert(next@ =~= spec_commit_patches(old(self)@, k as int));
        }
        *self = next;
    }

    /// Reinstate finalized patches at the bottom of the stack: their
    /// descriptors, fresh to the stack and in stack order, return to the
    /// front of applied and to the patch table; the head does not move.
    /// When nothing was applied, the commit of the last descriptor must be
    /// the recorded head.
    pub fn uncommit_patches(&mut self, descs: &Vec<PatchDesc>)
        requires
            desc_names(descs@).no_duplicates(),
            forall|i: int|
                0 <= i < descs@.len() ==> !old(self)@.patches.dom().contains(
                    #[trigger] desc_names(descs@)[i],
                ),
            (old(self)@.applied.len() == 0 && descs@.len() > 0) ==> descs@.last().oid == old(
                self,
            )@.head,
        ensures
            final(self)@ =~= spec_uncommit_patches(old(self)@, descs@),
            state_wf(final(self)@),
    {
        proof {
            use_type_invariant(&*self);
        }
        let dup = self.duplicate();
        proof {
            use_type_invariant(&dup);
        }
        let StackState { head, prev, applied, unapplied, hidden, mut patches } = dup;
        let mut new_applied: Vec<PatchName> = Vec::new();
        let mut i: usize = 0;
        while i < descs.len()
            invariant
                i <= descs@.len(),
                names_of(new_applied@) =~= desc_names(descs@).take(i as int),
                forall|j: int| 0 <= j < i ==> valid_name(#[trigger] desc_names(descs@)[j]),
            decreases descs@.len() - i,
        {
            let d = &descs[i];
            proof {
                use_type_invariant(&d.name);
            }
            let ghost pre = new_applied@;
            new_applied.push(d.name.duplicate());
            proof {
                assert(names_of(new_applied@) =~= names_of(pre).push(desc_names(descs@)[i as int]));
                assert(names_of(new_applied@) =~= desc_names(descs@).take(i + 1));
            }
            i += 1;
        }
        assert(desc_names(descs@).take(descs@.len() as int) =~= desc_names(descs@));
        append_names(&mut new_applied, &applied);
        let ghost all_pre = patches@;
        let mut i: usize = 0;
        while i < descs.len()
            invariant
                i <= descs@.len(),
                desc_names(descs@).no_duplicates(),
                forall|j: int|
                    0 <= j < descs@.len() ==> !desc_map(all_pre).dom().contains(
                        #[trigger] desc_names(descs@)[j],
                    ),
                desc_names(patches@).no_duplicates(),
                desc_names(patches@) =~= desc_names(all_pre) + desc_names(descs@).take(i as int),
                desc_map(patches@) =~= desc_map(all_pre).union_prefer_right(
                    desc_map(descs@.take(i as int)),
                ),
                desc_map(all_pre) == old(self)@.patches,
            decreases descs@.len() - i,
        {
            let d = descs[i].duplicate();
            let ghost pre = patches@;
            patches.push(d);
            proof {
                lemma_desc_map_push(pre, d);
                let n = desc_names(descs@)[i as int];
                assert(!desc_names(pre).contains(n)) by {
                    if desc_names(pre).contains(n) {
                        let j = choose|j: int|
                            0 <= j < desc_names(pre).len() && desc_names(pre)[j] == n;
                        if j < desc_names(all_pre).len() {
                            lemma_desc_map_dom(all_pre);
                            assert(desc_names(all_pre).to_set().contains(n)) by {
                                assert(desc_names(all_pre)[j] == n);
                            }
                        } else {
                            let jj = j - desc_names(all_pre).len();
                            assert(desc_names(descs@).take(i as int)[jj] == n);
                            assert(desc_names(descs@)[jj] == desc_names(descs@)[i as int]);
                        }
                    }
                }
                lemma_push_fresh(desc_names(pre), n);
                assert(descs@.take(i + 1).drop_last() =~= descs@.take(i as int));
                assert(desc_map(descs@.take(i + 1)) =~= desc_map(descs@.take(i as int)).insert(
                    n,
                    descs@[i as int].oid,
                ));
                assert(desc_map(patches@) =~= desc_map(all_pre).union_prefer_right(
                    desc_map(descs@.take(i + 1)),
                ));
                assert(desc_names(patches@) =~= desc_names(all_pre) + desc_names(descs@).take(
                    i + 1,
                ));
            }
            i += 1;
        }
        proof {
            assert(descs@.take(descs@.len() as int) =~= descs@);
            lemma_uncommit_patches_wf(old(self)@, descs@);
        }
        let next = StackState { head, prev, applied: new_applied, unapplied, hidden, patches };
        proof {
            assert(next@ =~= spec_uncommit_patches(old(self)@, descs@));
        }
        *self = next;
    }
}

/// Law: reinstating fresh, duplicate-free descriptors at the bottom of the
/// stack preserves the snapshot invariants.
pub proof fn lemma_uncommit_patches_wf(v: StackView, descs: Seq<PatchDesc>)
    requires
        state_wf(v),
        desc_names(descs).no_duplicates(),
        forall|i: int|
            0 <= i < descs.len() ==> !v.patches.dom().contains(#[trigger] desc_names(descs)[i])
                && valid_name(desc_names(descs)[i]),
        (v.applied.len() == 0 && descs.len() > 0) ==> descs.last().oid == v.head,
    ensures
        state_wf(spec_uncommit_patches(v, descs)),
{
    let r = spec_uncommit_patches(v, descs);
    let ns = desc_names(descs);
    lemma_desc_map_dom(descs);
    assert forall|i: int, j: int|
        0 <= i < ns.len() && 0 <= j < v.applied.len() implies ns[i] != v.applied[j] by {
        if ns[i] == v.applied[j] {
            assert(v.applied.contains(ns[i])) by {
                assert(v.applied[j] == ns[i]);
            }
            assert(v.patches.dom().contains(ns[i]));
        }
    }
    lemma_concat_fresh(ns, v.applied);
    assert forall|a: int, b: int|
        0 <= a < r.applied.len() && 0 <= b < v.unapplied.len() implies r.applied[a]
        != v.unapplied[b] by {
        if a < ns.len() {
            if r.applied[a] == v.unapplied[b] {
                assert(v.unapplied.contains(ns[a])) by {
                    assert(v.unapplied[b] == ns[a]);
                }
                assert(v.patches.dom().contains(ns[a]));
            }
        } else {
            assert(r.applied[a] == v.applied[a - ns.len()]);
        }
    }
    assert forall|a: int, b: int|
        0 <= a < r.applied.len() && 0 <= b < v.hidden.len() implies r.applied[a]
        != v.hidden[b] by {
        if a < ns.len() {
            if r.applied[a] == v.hidden[b] {
                assert(v.hidden.contains(ns[a])) by {
                    assert(v.hidden[b] == ns[a]);
                }
                assert(v.patches.dom().contains(ns[a]));
            }
        } else {
            assert(r.applied[a] == v.applied[a - ns.len()]);
        }
    }
    assert(r.patches.dom() =~= r.applied.to_set() + r.unapplied.to_set() + r.hidden.to_set());
    assert forall|y: Seq<char>| r.patches.dom().contains(y) implies valid_name(y) by {
        if v.patches.dom().contains(y) {
        } else {
            assert(ns.to_set().contains(y));
            let i = choose|i: int| 0 <= i < ns.len() && ns[i] == y;
            assert(valid_name(ns[i]));
        }
    }
    if r.applied.len() > 0 {
        if v.applied.len() > 0 {
            assert(r.applied.last() == v.applied.last());
            assert(!ns.to_set().contains(v.applied.last())) by {
                if ns.contains(v.applied.last()) {
                    assert(v.applied.contains(v.applied.last()));
                    assert(v.patches.dom().contains(v.applied.last()));
                }
            }
            assert(!desc_map(descs).dom().contains(v.applied.last()));
        } else {
            assert(r.applied.last() == ns.last());
            assert(ns.last() == desc_names(descs)[descs.len() - 1]);
            lemma_desc_map_at(descs, descs.len() - 1);
            assert(r.patches[ns.last()] == descs.last().oid);
        }
    }
}

/// A duplicate-free concatenation splits into duplicate-free, pairwise
/// disjoint parts.
pub proof fn lemma_concat3_unique<A>(a: Seq<A>, b: Seq<A>, c: Seq<A>)
    requires
        (a + b + c).no_duplicates(),
    ensures
        a.no_duplicates(),
        b.no_duplicates(),
        c.no_duplicates(),
        a.disjoint(b),
        a.disjoint(c),
        b.disjoint(c),
{
    let s = a + b + c;
    assert forall|i: int, j: int| 0 <= i < a.len() && 0 <= j < a.len() && i != j implies a[i]
        != a[j] by {
        assert(s[i] == a[i] && s[j] == a[j]);
    }
    assert forall|i: int, j: int| 0 <= i < b.len() && 0 <= j < b.len() && i != j implies b[i]
        != b[j] by {
        assert(s[a.len() + i] == b[i] && s[a.len() + j] == b[j]);
    }
    assert forall|i: int, j: int| 0 <= i < c.len() && 0 <= j < c.len() && i != j implies c[i]
        != c[j] by {
        assert(s[a.len() + b.len() + i] == c[i] && s[a.len() + b.len() + j] == c[j]);
    }
    assert forall|i: int, j: int| 0 <= i < a.len() && 0 <= j < b.len() implies a[i] != b[j] by {
        assert(s[i] == a[i] && s[a.len() + j] == b[j]);
    }
    assert forall|i: int, j: int| 0 <= i < a.len() && 0 <= j < c.len() implies a[i] != c[j] by {
        assert(s[i] == a[i] && s[a.len() + b.len() + j] == c[j]);
    }
    assert forall|i: int, j: int| 0 <= i < b.len() && 0 <= j < c.len() implies b[i] != c[j] by {
        assert(s[a.len() + i] == b[i] && s[a.len() + b.len() + j] == c[j]);
    }
}

/// A duplicate in a prefix is a duplicate in the whole.
proof fn lemma_dup_in_prefix<A>(s: Seq<A>, k: int)
    requires
        0 <= k <= s.len(),
        !s.take(k).no_duplicates(),
    ensures
        !s.no_duplicates(),
{
    let p = s.take(k);
    let (i, j) = choose|i: int, j: int|
        0 <= i < p.len() && 0 <= j < p.len() && i != j && #[trigger] p[i] == #[trigger] p[j];
    assert(s[i] == p[i] && s[j] == p[j]);
}

/// A concatenation's map is the right-biased union of its parts' maps.
proof fn lemma_desc_map_concat(a: Seq<PatchDesc>, b: Seq<PatchDesc>)
    ensures
        desc_map(a + b) =~= desc_map(a).union_prefer_right(desc_map(b)),
        desc_names(a + b) =~= desc_names(a) + desc_names(b),
    decreases b.len(),
{
    if b.len() == 0 {
        assert(a + b =~= a);
    } else {
        assert((a + b).drop_last() =~= a + b.drop_last());
        lemma_desc_map_concat(a, b.drop_last());
        assert((a + b).last() == b.last());
        assert(desc_map(a + b) =~= desc_map(a + b.drop_last()).insert(b.last().name@,
            b.last().oid));
        assert(desc_map(a).union_prefer_right(desc_map(b.drop_last())).insert(b.last().name@,
            b.last().oid) =~= desc_map(a).union_prefer_right(desc_map(b.drop_last()).insert(
            b.last().name@,
            b.last().oid,
        )));
    }
}

impl StackState {
    /// Reconstruct a snapshot from the parts of its persisted document:
    /// the recorded head and previous-state pointer, and the applied,
    /// unapplied and hidden descriptors in order. Fails exactly when a
    /// name occurs twice or the recorded head differs from the top applied
    /// patch's commit.
    #[verifier::rlimit(60)]
    pub fn from_parts(
        head: Oid,
        prev: Option<Oid>,
        applied: &Vec<PatchDesc>,
        unapplied: &Vec<PatchDesc>,
        hidden: &Vec<PatchDesc>,
    ) -> (r: Result<StackState, Error>)
        ensures
            ({
                let alln = desc_names(applied@) + desc_names(unapplied@) + desc_names(hidden@);
                match r {
                    Ok(st) => {
                        &&& alln.no_duplicates()
                        &&& applied@.len() > 0 ==> applied@.last().oid == head
                        &&& st@.head == head
                        &&& st@.prev == prev
                        &&& st@.applied == desc_names(applied@)
                        &&& st@.unapplied == desc_names(unapplied@)
                        &&& st@.hidden == desc_names(hidden@)
                        &&& st@.patches == desc_map(applied@ + unapplied@ + hidden@)
                        &&& state_wf(st@)
                    },
                    Err(e) => {
                        &&& !(alln.no_duplicates() && (applied@.len() > 0
                            ==> applied@.last().oid == head))
                        &&& e matches Error::Vcs(_)
                    },
                }
            }),
    {
        let ghost alln = desc_names(applied@) + desc_names(unapplied@) + desc_names(hidden@);
        let mut patches: Vec<PatchDesc> = Vec::new();
        let mut applied_names: Vec<PatchName> = Vec::new();
        let mut unapplied_names: Vec<PatchName> = Vec::new();
        let mut hidden_names: Vec<PatchName> = Vec::new();
        let ghost b0 = patches@;
        if !copy_descs(&mut patches, &mut applied_names, applied) {
            proof {
                assert(alln.take(desc_names(applied@).len() as int) =~= desc_names(applied@));
                lemma_dup_in_prefix(alln, desc_names(applied@).len() as int);
            }
            return Err(Error::Vcs(malformed_state_text()));
        }
        let ghost p1 = patches@;
        if !copy_descs(&mut patches, &mut unapplied_names, unapplied) {
            proof {
                assert(desc_names(p1 + unapplied@) =~= desc_names(p1) + desc_names(unapplied@));
                let k2 = desc_names(applied@).len() + desc_names(unapplied@).len();
                assert(alln.take(k2 as int) =~= desc_names(applied@) + desc_names(unapplied@));
                lemma_dup_in_prefix(alln, k2 as int);
            }
            return Err(Error::Vcs(malformed_state_text()));
        }
        let ghost p2 = patches@;
        if !copy_descs(&mut patches, &mut hidden_names, hidden) {
            proof {
                assert(desc_names(p2 + hidden@) =~= desc_names(p2) + desc_names(hidden@));
                assert(alln.take(alln.len() as int) =~= alln);
            }
            return Err(Error::Vcs(malformed_state_text()));
        }
        if applied.len() > 0 && !(applied[applied.len() - 1].oid == head) {
            return Err(Error::Vcs(malformed_state_text()));
        }
        proof {
            assert(desc_names(patches@) =~= alln);
            lemma_concat3_unique(
                desc_names(applied@),
                desc_names(unapplied@),
                desc_names(hidden@),
            );
            assert(desc_map(b0) =~= Map::<Seq<char>, Oid>::empty());
            lemma_desc_map_concat(applied@ + unapplied@, hidden@);
            lemma_desc_map_concat(applied@, unapplied@);
            assert(desc_map(patches@) =~= desc_map(applied@ + unapplied@ + hidden@));
            lemma_desc_map_dom(patches@);
            lemma_concat_fresh(desc_names(applied@), desc_names(unapplied@));
            assert forall|i: int, j: int|
                0 <= i < (desc_names(applied@) + desc_names(unapplied@)).len() && 0 <= j
                    < desc_names(hidden@).len() implies (desc_names(applied@) + desc_names(
                unapplied@,
            ))[i] != desc_names(hidden@)[j] by {
                if i < desc_names(applied@).len() {
                } else {
                    assert((desc_names(applied@) + desc_names(unapplied@))[i] == desc_names(
                        unapplied@,
                    )[i - desc_names(applied@).len()]);
                }
            }
            assert((desc_names(applied@) + desc_names(unapplied@)).no_duplicates());
            lemma_concat_fresh(
                desc_names(applied@) + desc_names(unapplied@),
                desc_names(hidden@),
            );
            assert(desc_names(patches@).to_set() =~= desc_names(applied@).to_set() + desc_names(
                unapplied@,
            ).to_set() + desc_names(hidden@).to_set());
            if applied@.len() > 0 {
                let comb = applied@ + unapplied@ + hidden@;
                assert(desc_names(comb) =~= alln);
                lemma_desc_map_at(comb, applied@.len() - 1);
                assert(comb[applied@.len() - 1] == applied@.last()) by {
                    assert(comb[applied@.len() - 1] == applied@[applied@.len() - 1]);
                }
                assert(desc_names(applied@).last() == applied@.last().name@);
                assert(desc_map(comb)[applied@.last().name@] == applied@.last().oid);
            }
        }
        proof {
            assert(names_of(applied_names@) =~= desc_names(applied@));
            assert(names_of(unapplied_names@) =~= desc_names(unapplied@));
            assert(names_of(hidden_names@) =~= desc_names(hidden@));
            assert forall|n: Seq<char>| #[trigger] desc_map(patches@).dom().contains(
                n,
            ) implies valid_name(n) by {
                assert(desc_names(patches@).to_set().contains(n));
                assert(desc_names(patches@).contains(n));
                let i = choose|i: int|
                    0 <= i < desc_names(patches@).len() && desc_names(patches@)[i] == n;
                if i < desc_names(applied@).len() {
                    assert(desc_names(applied@)[i] == n);
                    assert(valid_name(desc_names(applied@)[i]));
                } else if i < desc_names(applied@).len() + desc_names(unapplied@).len() {
                    assert(desc_names(unapplied@)[i - desc_names(applied@).len()] == n);
                    assert(valid_name(
                        desc_names(unapplied@)[i - desc_names(applied@).len()],
                    ));
                } else {
                    let k = i - desc_names(applied@).len() - desc_names(unapplied@).len();
                    assert(desc_names(hidden@)[k] == n);
                    assert(valid_name(desc_names(hidden@)[k]));
                }
            }
        }
        let st = StackState {
            head,
            prev,
            applied: applied_names,
            unapplied: unapplied_names,
            hidden: hidden_names,
            patches,
        };
        Ok(st)
    }
}

/// Append copies of the descriptors to the running table and their names
/// to the given list; false when a name repeats one the table holds.
fn copy_descs(
    patches: &mut Vec<PatchDesc>,
    names: &mut Vec<PatchName>,
    src: &Vec<PatchDesc>,
) -> (ok: bool)
    requires
        desc_names(old(patches)@).no_duplicates(),
    ensures
        ok ==> {
            &&& desc_names(final(patches)@) =~= desc_names(old(patches)@) + desc_names(src@)
            &&& desc_map(final(patches)@) =~= desc_map(old(patches)@).union_prefer_right(
                desc_map(src@),
            )
            &&& desc_names(final(patches)@).no_duplicates()
            &&& names_of(final(names)@) == names_of(old(names)@) + desc_names(src@)
            &&& (forall|j: int|
                0 <= j < src@.len() ==> valid_name(#[trigger] desc_names(src@)[j]))
        },
        !ok ==> !desc_names(old(patches)@ + src@).no_duplicates(),
{
    let ghost base = patches@;
    let mut i: usize = 0;
    while i < src.len()
        invariant
            i <= src@.len(),
            forall|j: int| 0 <= j < i ==> valid_name(#[trigger] desc_names(src@)[j]),
            desc_names(patches@) =~= desc_names(base) + desc_names(src@).take(i as int),
            desc_map(patches@) =~= desc_map(base).union_prefer_right(
                desc_map(src@.take(i as int)),
            ),
            desc_names(patches@).no_duplicates(),
            desc_names(base).no_duplicates(),
            base == old(patches)@,
            names_of(names@) =~= names_of(old(names)@) + desc_names(src@).take(i as int),
        decreases src@.len() - i,
    {
        let d = &src[i];
        match desc_find(patches, &d.name) {
            Some(j) => {
                proof {
                    let s = desc_names(base + src@);
                    lemma_desc_map_concat(base, src@);
                    let jj = j as int;
                    let ii = base.len() + i;
                    assert(desc_names(patches@).len() == desc_names(base).len() + i);
                    assert(jj < base.len() + i);
                    assert(s.len() == base.len() + src@.len());
                    assert(s[jj] == desc_names(patches@)[jj]) by {
                        if jj < base.len() {
                            assert(desc_names(base)[jj] == s[jj]) by {
                                assert((base + src@)[jj] == base[jj]);
                            }
                            assert(desc_names(patches@)[jj] == desc_names(base)[jj]);
                        } else {
                            assert(desc_names(src@).take(i as int)[jj - base.len()] == s[jj]) by {
                                assert((base + src@)[jj] == src@[jj - base.len()]);
                            }
                            assert(desc_names(patches@)[jj] == desc_names(src@).take(
                                i as int,
                            )[jj - base.len()]);
                        }
                    }
                    assert(s[ii] == src@[i as int].name@) by {
                        assert((base + src@)[ii] == src@[i as int]);
                    }
                    assert(desc_names(patches@)[jj] == src@[i as int].name@);
                    assert(s[jj] == s[ii] && jj != ii);
                    assert(!s.no_duplicates());
                }
                return false;
            },
            None => {},
        }
        let dd = d.duplicate();
        let ghost pre_p = patches@;
        let ghost pre_n = names@;
        proof {
            use_type_invariant(&d.name);
            assert(valid_name(desc_names(src@)[i as int]));
            lemma_desc_map_push(pre_p, dd);
            lemma_push_fresh(desc_names(pre_p), dd.name@);
        }
        patches.push(dd);
        names.push(d.name.duplicate());
        proof {
            assert(desc_names(patches@) =~= desc_names(pre_p).push(src@[i as int].name@));
            assert(desc_names(src@).take(i + 1) =~= desc_names(src@).take(i as int).push(
                src@[i as int].name@,
            ));
            assert(desc_names(patches@) =~= desc_names(base) + desc_names(src@).take(i + 1));
            assert(src@.take(i + 1).drop_last() =~= src@.take(i as int));
            assert(desc_map(src@.take(i + 1)) =~= desc_map(src@.take(i as int)).insert(
                src@[i as int].name@,
                src@[i as int].oid,
            ));
            assert(desc_map(patches@) =~= desc_map(pre_p).insert(
                src@[i as int].name@,
                src@[i as int].oid,
            ));
            assert(desc_map(patches@) =~= desc_map(base).union_prefer_right(
                desc_map(src@.take(i + 1)),
            ));
            assert(names_of(names@) =~= names_of(pre_n).push(src@[i as int].name@));
            assert(names_of(names@) =~= names_of(old(names)@) + desc_names(src@).take(i + 1));
        }
        i += 1;
    }
    proof {
        assert(desc_names(src@).take(desc_names(src@).len() as int) =~= desc_names(src@));
        assert(src@.take(src@.len() as int) =~= src@);
    }
    true
}

/// The message reported when a persisted stack-state document is not well
/// formed.
fn malformed_state_text() -> (r: String)
    ensures
        r@ == "malformed stack state"@,
{
    <String as vstd::string::StringExecFns>::from_str("malformed stack state")
}

/// Law: inserting a brand-new patch whose commit sits on the current head
/// preserves consistency with the object store.
pub proof fn lemma_new_applied_consistent(
    v: StackView,
    m: Map<Oid, CommitMeta>,
    n: Seq<char>,
    oid: Oid,
)
    requires
        state_wf(v),
        state_consistent(v, m),
        !v.patches.dom().contains(n),
        m.dom().contains(oid),
        m[oid].parent == Some(v.head),
    ensures
        state_consistent(spec_new_applied(v, n, oid), m),
{
    let r = spec_new_applied(v, n, oid);
    lemma_dom_split(v, n);
    assert forall|i: int|
        0 < i < r.applied.len() implies m[r.patches[#[trigger] r.applied[i]]].parent == Some(
        r.patches[r.applied[i - 1]],
    ) by {
        assert(forall|j: int|
            0 <= j < v.applied.len() ==> #[trigger] v.applied[j] != n) by {
            assert forall|j: int| 0 <= j < v.applied.len() implies #[trigger] v.applied[j]
                != n by {
                if v.applied[j] == n {
                    assert(v.applied.contains(n));
                }
            }
        }
        if i < v.applied.len() {
            assert(r.applied[i] == v.applied[i]);
            assert(r.patches[v.applied[i]] == v.patches[v.applied[i]]);
            assert(r.patches[v.applied[i - 1]] == v.patches[v.applied[i - 1]]);
        } else {
            assert(r.applied[i] == n);
            assert(r.patches[n] == oid);
            assert(r.applied[i - 1] == v.applied.last());
            assert(v.patches[v.applied.last()] == v.head);
        }
    }
}

/// Law: reapplying a stored patch with a commit that sits on the current
/// head preserves consistency with the object store.
pub proof fn lemma_push_patch_consistent(
    v: StackView,
    m: Map<Oid, CommitMeta>,
    n: Seq<char>,
    oid: Oid,
)
    requires
        state_wf(v),
        state_consistent(v, m),
        v.unapplied.contains(n) || v.hidden.contains(n),
        m.dom().contains(oid),
        m[oid].parent == Some(v.head),
    ensures
        state_consistent(spec_push_patch(v, n, oid), m),
{
    let r = spec_push_patch(v, n, oid);
    assert(!v.applied.contains(n)) by {
        if v.applied.contains(n) {
            let i = choose|i: int| 0 <= i < v.applied.len() && v.applied[i] == n;
            if v.unapplied.contains(n) {
                let j = choose|j: int| 0 <= j < v.unapplied.len() && v.unapplied[j] == n;
                assert(v.applied[i] != v.unapplied[j]);
            } else {
                let j = choose|j: int| 0 <= j < v.hidden.len() && v.hidden[j] == n;
                assert(v.applied[i] != v.hidden[j]);
            }
        }
    }
    assert forall|i: int|
        0 < i < r.applied.len() implies m[r.patches[#[trigger] r.applied[i]]].parent == Some(
        r.patches[r.applied[i - 1]],
    ) by {
        if i < v.applied.len() {
            assert(r.applied[i] == v.applied[i]);
            assert(v.applied[i] != n) by {
                if v.applied[i] == n {
                    assert(v.applied.contains(n));
                }
            }
            assert(v.applied[i - 1] != n) by {
                if v.applied[i - 1] == n {
                    assert(v.applied.contains(n));
                }
            }
        } else {
            assert(r.applied[i] == n);
            assert(r.patches[n] == oid);
            assert(r.applied[i - 1] == v.applied.last());
            assert(v.applied.last() != n);
            assert(v.patches[v.applied.last()] == v.head);
        }
    }
    assert forall|y: Seq<char>| #[trigger] r.patches.dom().contains(y) implies m.dom().contains(
        r.patches[y],
    ) && m[r.patches[y]].parent is Some by {
        if y != n {
            assert(v.patches.dom().contains(y));
        }
    }
}

/// Law: popping applied patches preserves consistency with the object
/// store.
pub proof fn lemma_pop_patches_consistent(
    v: StackView,
    m: Map<Oid, CommitMeta>,
    k: int,
    empty_head: Oid,
)
    requires
        state_wf(v),
        state_consistent(v, m),
        0 <= k <= v.applied.len(),
    ensures
        state_consistent(spec_pop_patches(v, k, empty_head), m),
{
    let r = spec_pop_patches(v, k, empty_head);
    assert forall|i: int|
        0 < i < r.applied.len() implies m[r.patches[#[trigger] r.applied[i]]].parent == Some(
        r.patches[r.applied[i - 1]],
    ) by {
        assert(r.applied[i] == v.applied[i]);
        assert(r.applied[i - 1] == v.applied[i - 1]);
    }
}

/// Law: replacing the commit of the top (or of a stored) patch with a
/// suitably parented commit preserves consistency with the object store.
pub proof fn lemma_update_patch_consistent(
    v: StackView,
    m: Map<Oid, CommitMeta>,
    n: Seq<char>,
    oid: Oid,
)
    requires
        state_wf(v),
        state_consistent(v, m),
        v.patches.dom().contains(n),
        m.dom().contains(oid),
        m[oid].parent is Some,
        v.applied.contains(n) ==> v.applied.len() > 0 && v.applied.last() == n,
        (v.applied.len() >= 2 && v.applied.last() == n) ==> m[oid].parent == Some(
            v.patches[v.applied[v.applied.len() - 2]],
        ),
    ensures
        state_consistent(spec_update_patch(v, n, oid), m),
{
    let r = spec_update_patch(v, n, oid);
    assert forall|i: int|
        0 < i < r.applied.len() implies m[r.patches[#[trigger] r.applied[i]]].parent == Some(
        r.patches[r.applied[i - 1]],
    ) by {
        if v.applied.contains(n) {
            assert(v.applied.last() == n);
            assert(forall|j: int|
                0 <= j < v.applied.len() - 1 ==> #[trigger] v.applied[j] != n);
            if i < v.applied.len() - 1 {
                assert(r.patches[v.applied[i]] == v.patches[v.applied[i]]);
                assert(r.patches[v.applied[i - 1]] == v.patches[v.applied[i - 1]]);
            } else {
                assert(r.applied[i] == n);
                assert(r.patches[n] == oid);
                assert(v.applied[i - 1] != n);
                assert(r.patches[v.applied[i - 1]] == v.patches[v.applied[i - 1]]);
            }
        } else {
            assert(forall|j: int| 0 <= j < v.applied.len() ==> #[trigger] v.applied[j] != n) by {
                assert forall|j: int| 0 <= j < v.applied.len() implies #[trigger] v.applied[j]
                    != n by {
                    if v.applied[j] == n {
                        assert(v.applied.contains(n));
                    }
                }
            }
            assert(r.patches[v.applied[i]] == v.patches[v.applied[i]]);
            assert(r.patches[v.applied[i - 1]] == v.patches[v.applied[i - 1]]);
        }
    }
    assert forall|y: Seq<char>| #[trigger] r.patches.dom().contains(y) implies m.dom().contains(
        r.patches[y],
    ) && m[r.patches[y]].parent is Some by {
        if y != n {
            assert(v.patches.dom().contains(y));
        }
    }
}

/// Law: renaming a patch preserves consistency with the object store —
/// every commit stays where it was.
pub proof fn lemma_rename_patch_consistent(
    v: StackView,
    m: Map<Oid, CommitMeta>,
    o: Seq<char>,
    n: Seq<char>,
)
    requires
        state_wf(v),
        state_consistent(v, m),
        v.patches.dom().contains(o),
        !v.patches.dom().contains(n),
    ensures
        state_consistent(spec_rename_patch(v, o, n), m),
{
    let r = spec_rename_patch(v, o, n);
    lemma_dom_split(v, n);
    assert forall|i: int|
        0 <= i < r.applied.len() implies #[trigger] r.patches[r.applied[i]]
        == v.patches[v.applied[i]] by {
        if v.applied.contains(o) {
            let io = v.applied.index_of(o);
            assert(0 <= io < v.applied.len() && v.applied[io] == o) by {
                assert(exists|j: int| 0 <= j < v.applied.len() && v.applied[j] == o);
            }
            if i == io {
                assert(r.applied[i] == n);
                assert(r.patches[n] == v.patches[o]);
            } else {
                assert(r.applied[i] == v.applied[i]);
                assert(v.applied[i] != o);
                assert(v.applied[i] != n) by {
                    if v.applied[i] == n {
                        assert(v.applied.contains(n));
                    }
                }
            }
        } else {
            assert(r.applied[i] == v.applied[i]);
            assert(v.applied[i] != o) by {
                if v.applied[i] == o {
                    assert(v.applied.contains(o));
                }
            }
            assert(v.applied[i] != n) by {
                if v.applied[i] == n {
                    assert(v.applied.contains(n));
                }
            }
        }
    }
    assert forall|i: int|
        0 < i < r.applied.len() implies m[r.patches[#[trigger] r.applied[i]]].parent == Some(
        r.patches[r.applied[i - 1]],
    ) by {
        assert(r.patches[r.applied[i]] == v.patches[v.applied[i]]);
        assert(r.patches[r.applied[i - 1]] == v.patches[v.applied[i - 1]]);
    }
    assert forall|y: Seq<char>| #[trigger] r.patches.dom().contains(y) implies m.dom().contains(
        r.patches[y],
    ) && m[r.patches[y]].parent is Some by {
        if y == n {
            assert(r.patches[n] == v.patches[o]);
        } else {
            assert(v.patches.dom().contains(y));
            assert(r.patches[y] == v.patches[y]);
        }
    }
}

/// Law: deleting the top applied patch, or a stored one, preserves
/// consistency with the object store.
pub proof fn lemma_delete_patch_consistent(
    v: StackView,
    m: Map<Oid, CommitMeta>,
    n: Seq<char>,
    empty_head: Oid,
)
    requires
        state_wf(v),
        state_consistent(v, m),
        v.patches.dom().contains(n),
        v.applied.contains(n) ==> v.applied.len() > 0 && v.applied.last() == n,
    ensures
        state_consistent(spec_delete_patch(v, n, empty_head), m),
{
    let r = spec_delete_patch(v, n, empty_head);
    if v.applied.contains(n) {
        let i = v.applied.index_of(n);
        assert(0 <= i < v.applied.len() && v.applied[i] == n) by {
            assert(exists|j: int| 0 <= j < v.applied.len() && v.applied[j] == n);
        }
        assert(i == v.applied.len() - 1) by {
            if i != v.applied.len() - 1 {
                assert(v.applied[i] == v.applied[v.applied.len() - 1]);
            }
        }
        assert(r.applied =~= v.applied.drop_last()) by {
            v.applied.remove_ensures(i);
        }
    } else {
        assert(r.applied == v.applied);
    }
    assert forall|i: int|
        0 < i < r.applied.len() implies m[r.patches[#[trigger] r.applied[i]]].parent == Some(
        r.patches[r.applied[i - 1]],
    ) by {
        assert(r.applied[i] == v.applied[i]);
        assert(r.applied[i - 1] == v.applied[i - 1]);
        assert(v.applied[i] != n) by {
            if v.applied.contains(n) {
                assert(v.applied[i] == v.applied[v.applied.len() - 1] ==> i == v.applied.len()
                    - 1);
            } else {
                if v.applied[i] == n {
                    assert(v.applied.contains(n));
                }
            }
        }
        assert(v.applied[i - 1] != n) by {
            if v.applied.contains(n) {
            } else {
                if v.applied[i - 1] == n {
                    assert(v.applied.contains(n));
                }
            }
        }
    }
}

/// Law: finalizing the bottom applied patches preserves consistency with
/// the object store.
pub proof fn lemma_commit_patches_consistent(v: StackView, m: Map<Oid, CommitMeta>, k: int)
    requires
        state_wf(v),
        state_consistent(v, m),
        0 <= k <= v.applied.len(),
    ensures
        state_consistent(spec_commit_patches(v, k), m),
{
    let r = spec_commit_patches(v, k);
    assert forall|i: int|
        0 <= i < r.applied.len() implies #[trigger] r.patches[r.applied[i]]
        == v.patches[v.applied[k + i]] by {
        assert(r.applied[i] == v.applied[k + i]);
        assert(!v.applied.take(k).contains(v.applied[k + i])) by {
            if v.applied.take(k).contains(v.applied[k + i]) {
                let j = choose|j: int|
                    0 <= j < v.applied.take(k).len() && #[trigger] v.applied.take(k)[j]
                        == v.applied[k + i];
                assert(v.applied[j] == v.applied[k + i]);
            }
        }
        assert(!v.applied.take(k).to_set().contains(v.applied[k + i]));
    }
    assert forall|i: int|
        0 < i < r.applied.len() implies m[r.patches[#[trigger] r.applied[i]]].parent == Some(
        r.patches[r.applied[i - 1]],
    ) by {
        assert(r.patches[r.applied[i]] == v.patches[v.applied[k + i]]);
        assert(r.patches[r.applied[i - 1]] == v.patches[v.applied[k + i - 1]]);
        assert(m[v.patches[v.applied[k + i]]].parent == Some(v.patches[v.applied[k + i - 1]]));
    }
    assert forall|y: Seq<char>| #[trigger] r.patches.dom().contains(y) implies m.dom().contains(
        r.patches[y],
    ) && m[r.patches[y]].parent is Some by {
        assert(v.patches.dom().contains(y));
        assert(r.patches[y] == v.patches[y]);
    }
}

/// Law: reinstating finalized patches whose commits chain up to the old
/// bottom preserves consistency with the object store.
pub proof fn lemma_uncommit_patches_consistent(
    v: StackView,
    m: Map<Oid, CommitMeta>,
    descs: Seq<PatchDesc>,
)
    requires
        state_wf(v),
        state_consistent(v, m),
        desc_names(descs).no_duplicates(),
        forall|i: int|
            0 <= i < descs.len() ==> !v.patches.dom().contains(#[trigger] desc_names(descs)[i]),
        forall|i: int|
            0 <= i < descs.len() ==> m.dom().contains(#[trigger] descs[i].oid)
                && m[descs[i].oid].parent is Some,
        forall|i: int|
            0 < i < descs.len() ==> m[#[trigger] descs[i].oid].parent == Some(descs[i - 1].oid),
        (v.applied.len() > 0 && descs.len() > 0) ==> m[v.patches[v.applied[0]]].parent == Some(
            descs.last().oid,
        ),
    ensures
        state_consistent(spec_uncommit_patches(v, descs), m),
{
    let r = spec_uncommit_patches(v, descs);
    let ns = desc_names(descs);
    lemma_desc_map_dom(descs);
    assert forall|i: int|
        0 <= i < descs.len() implies #[trigger] r.patches[ns[i]] == descs[i].oid by {
        lemma_desc_map_at(descs, i);
        assert(desc_map(descs).dom().contains(ns[i]));
    }
    assert forall|i: int|
        0 <= i < v.applied.len() implies #[trigger] r.patches[v.applied[i]]
        == v.patches[v.applied[i]] by {
        assert(!ns.contains(v.applied[i])) by {
            if ns.contains(v.applied[i]) {
                let j = choose|j: int| 0 <= j < ns.len() && ns[j] == v.applied[i];
                assert(v.patches.dom().contains(ns[j])) by {
                    assert(v.applied.contains(v.applied[i]));
                }
            }
        }
        assert(!desc_map(descs).dom().contains(v.applied[i]));
    }
    assert forall|i: int|
        0 < i < r.applied.len() implies m[r.patches[#[trigger] r.applied[i]]].parent == Some(
        r.patches[r.applied[i - 1]],
    ) by {
        if i < ns.len() {
            assert(r.applied[i] == ns[i]);
            assert(r.applied[i - 1] == ns[i - 1]);
        } else if i == ns.len() {
            assert(r.applied[i] == v.applied[0]);
            assert(r.applied[i - 1] == ns[ns.len() - 1]);
            assert(ns.last() == ns[ns.len() - 1]);
            assert(descs.last() == descs[ns.len() - 1]);
        } else {
            assert(r.applied[i] == v.applied[i - ns.len()]);
            assert(r.applied[i - 1] == v.applied[i - ns.len() - 1]);
        }
    }
    assert forall|y: Seq<char>| #[trigger] r.patches.dom().contains(y) implies m.dom().contains(
        r.patches[y],
    ) && m[r.patches[y]].parent is Some by {
        if desc_map(descs).dom().contains(y) {
            assert(ns.to_set().contains(y));
            let i = choose|i: int| 0 <= i < ns.len() && ns[i] == y;
            lemma_desc_map_at(descs, i);
        } else {
            assert(v.patches.dom().contains(y));
            assert(r.patches[y] == v.patches[y]);
        }
    }
}

/// What pushing a list of patches in order yields, whatever commits the
/// merges produce.
pub open spec fn spec_push_names(v: StackView, names: Seq<Seq<char>>, oids: Seq<Oid>) -> StackView
    decreases names.len(),
{
    if names.len() == 0 || oids.len() == 0 {
        v
    } else {
        spec_push_names(
            spec_push_patch(v, names[0], oids[0]),
            names.drop_first(),
            oids.drop_first(),
        )
    }
}

/// Pushing a list of patches appends exactly their names to the applied
/// sequence.
pub proof fn lemma_push_names_applied(v: StackView, names: Seq<Seq<char>>, oids: Seq<Oid>)
    requires
        names.len() == oids.len(),
    ensures
        spec_push_names(v, names, oids).applied =~= v.applied + names,
    decreases names.len(),
{
    if names.len() == 0 {
        assert(v.applied + names =~= v.applied);
    } else {
        let v1 = spec_push_patch(v, names[0], oids[0]);
        lemma_push_names_applied(v1, names.drop_first(), oids.drop_first());
        assert(v1.applied =~= v.applied + seq![names[0]]);
        assert((v.applied + seq![names[0]]) + names.drop_first() =~= v.applied + names);
    }
}

/// Law: the commit rearrangement puts the selection at the bottom. Popping
/// the applied patches above the agreeing prefix and pushing back first
/// the remaining selected names and then anything else leaves the applied
/// sequence starting with exactly the selected names, in order — whatever
/// commits the pushes produced and whatever else follows them.
pub proof fn lemma_rearrangement_yields_bottom_prefix(
    v: StackView,
    selected: Seq<Seq<char>>,
    k: int,
    rest: Seq<Seq<char>>,
    oids: Seq<Oid>,
    empty_head: Oid,
)
    requires
        0 <= k <= v.applied.len(),
        k <= selected.len(),
        forall|j: int| 0 <= j < k ==> v.applied[j] == #[trigger] selected[j],
        selected.skip(k).len() + rest.len() == oids.len(),
    ensures
        ({
            let after = spec_push_names(
                spec_pop_patches(v, k, empty_head),
                selected.skip(k) + rest,
                oids,
            );
            &&& after.applied.len() >= selected.len()
            &&& after.applied.take(selected.len() as int) =~= selected
        }),
{
    let popped = spec_pop_patches(v, k, empty_head);
    assert(popped.applied == v.applied.take(k));
    lemma_push_names_applied(popped, selected.skip(k) + rest, oids);
    let after = spec_push_names(popped, selected.skip(k) + rest, oids);
    assert(after.applied =~= v.applied.take(k) + (selected.skip(k) + rest));
    assert forall|j: int| 0 <= j < selected.len() implies after.applied[j] == selected[j] by {
        if j < k {
            assert(after.applied[j] == v.applied.take(k)[j]);
            assert(v.applied[j] == selected[j]);
        } else {
            assert(after.applied[j] == (selected.skip(k) + rest)[j - k]);
            assert((selected.skip(k) + rest)[j - k] == selected.skip(k)[j - k]);
        }
    }
    assert(after.applied.take(selected.len() as int) =~= selected);
}

/// One transaction operation, as mathematics: what each staged mutation
/// does to a snapshot.
pub enum StackOp {
    NewApplied(Seq<char>, Oid),
    Push(Seq<char>, Oid),
    Pop(int, Oid),
    Update(Seq<char>, Oid),
    Rename(Seq<char>, Seq<char>),
    Delete(Seq<char>, Oid),
    Commit(int),
    Uncommit(Seq<PatchDesc>),
    AdvanceHead(Oid, Oid),
}

/// When an operation may run on a snapshot: the conditions its exec
/// counterpart checks or requires.
pub open spec fn op_enabled(v: StackView, op: StackOp) -> bool {
    match op {
        StackOp::NewApplied(n, _) => !v.patches.dom().contains(n) && valid_name(n),
        StackOp::Push(n, _) => v.unapplied.contains(n) || v.hidden.contains(n),
        StackOp::Pop(k, _) => 0 <= k <= v.applied.len(),
        StackOp::Update(n, _) => v.patches.dom().contains(n),
        StackOp::Rename(o, n) => v.patches.dom().contains(o) && !v.patches.dom().contains(n)
            && valid_name(n),
        StackOp::Delete(n, _) => v.patches.dom().contains(n),
        StackOp::Commit(k) => 0 <= k <= v.applied.len(),
        StackOp::Uncommit(descs) => {
            &&& desc_names(descs).no_duplicates()
            &&& (forall|i: int|
                0 <= i < descs.len() ==> !v.patches.dom().contains(#[trigger] desc_names(descs)[i])
                    && valid_name(desc_names(descs)[i]))
            &&& (v.applied.len() == 0 && descs.len() > 0) ==> descs.last().oid == v.head
        },
        StackOp::AdvanceHead(h, _) => v.applied.len() > 0 ==> h == v.patches[v.applied.last()],
    }
}

/// What an operation does to a snapshot.
pub open spec fn apply_op(v: StackView, op: StackOp) -> StackView {
    match op {
        StackOp::NewApplied(n, oid) => spec_new_applied(v, n, oid),
        StackOp::Push(n, oid) => spec_push_patch(v, n, oid),
        StackOp::Pop(k, empty_head) => spec_pop_patches(v, k, empty_head),
        StackOp::Update(n, oid) => spec_update_patch(v, n, oid),
        StackOp::Rename(o, n) => spec_rename_patch(v, o, n),
        StackOp::Delete(n, empty_head) => spec_delete_patch(v, n, empty_head),
        StackOp::Commit(k) => spec_commit_patches(v, k),
        StackOp::Uncommit(descs) => spec_uncommit_patches(v, descs),
        StackOp::AdvanceHead(h, p) => StackView { head: h, prev: Some(p), ..v },
    }
}

/// What a sequence of operations does to a snapshot.
pub open spec fn apply_ops(v: StackView, ops: Seq<StackOp>) -> StackView
    decreases ops.len(),
{
    if ops.len() == 0 {
        v
    } else {
        apply_ops(apply_op(v, ops[0]), ops.drop_first())
    }
}

/// When a sequence of operations may run: each operation is enabled on the
/// snapshot the ones before it produced.
pub open spec fn ops_enabled(v: StackView, ops: Seq<StackOp>) -> bool
    decreases ops.len(),
{
    ops.len() == 0 || (op_enabled(v, ops[0]) && ops_enabled(apply_op(v, ops[0]), ops.drop_first()))
}

/// Law: every single operation preserves the snapshot invariants.
pub proof fn lemma_op_preserves_wf(v: StackView, op: StackOp)
    requires
        state_wf(v),
        op_enabled(v, op),
    ensures
        state_wf(apply_op(v, op)),
{
    match op {
        StackOp::NewApplied(n, oid) => lemma_new_applied_wf(v, n, oid),
        StackOp::Push(n, oid) => lemma_push_patch_wf(v, n, oid),
        StackOp::Pop(k, empty_head) => lemma_pop_patches_wf(v, k, empty_head),
        StackOp::Update(n, oid) => lemma_update_patch_wf(v, n, oid),
        StackOp::Rename(o, n) => lemma_rename_patch_wf(v, o, n),
        StackOp::Delete(n, empty_head) => lemma_delete_patch_wf(v, n, empty_head),
        StackOp::Commit(k) => lemma_commit_patches_wf(v, k),
        StackOp::Uncommit(descs) => lemma_uncommit_patches_wf(v, descs),
        StackOp::AdvanceHead(h, p) => {
            let r = apply_op(v, op);
            assert(r.patches.dom() =~= r.applied.to_set() + r.unapplied.to_set()
                + r.hidden.to_set());
        },
    }
}

/// What an operation needs of the object store to keep a snapshot
/// consistent with it: the conditions the transaction checks or requires
/// before running the operation.
pub open spec fn op_store_pre(v: StackView, m: Map<Oid, CommitMeta>, op: StackOp) -> bool {
    match op {
        StackOp::NewApplied(_, oid) => m.dom().contains(oid) && m[oid].parent == Some(v.head),
        StackOp::Push(_, oid) => m.dom().contains(oid) && m[oid].parent == Some(v.head),
        StackOp::Pop(_, _) => true,
        StackOp::Update(n, oid) => {
            &&& m.dom().contains(oid) && m[oid].parent is Some
            &&& v.applied.contains(n) ==> v.applied.len() > 0 && v.applied.last() == n
            &&& (v.applied.len() >= 2 && v.applied.last() == n) ==> m[oid].parent == Some(
                v.patches[v.applied[v.applied.len() - 2]],
            )
        },
        StackOp::Rename(_, _) => true,
        StackOp::Delete(n, _) => v.applied.contains(n) ==> v.applied.len() > 0
            && v.applied.last() == n,
        StackOp::Commit(_) => true,
        StackOp::Uncommit(descs) => {
            &&& (forall|i: int|
                0 <= i < descs.len() ==> m.dom().contains(#[trigger] descs[i].oid)
                    && m[descs[i].oid].parent is Some)
            &&& (forall|i: int|
                0 < i < descs.len() ==> m[#[trigger] descs[i].oid].parent == Some(
                    descs[i - 1].oid,
                ))
            &&& (v.applied.len() > 0 && descs.len() > 0) ==> m[v.patches[v.applied[0]]].parent
                == Some(descs.last().oid)
        },
        StackOp::AdvanceHead(_, _) => true,
    }
}

/// Law: every single operation, run under its store conditions, preserves
/// consistency with the object store.
pub proof fn lemma_op_preserves_consistent(v: StackView, m: Map<Oid, CommitMeta>, op: StackOp)
    requires
        state_wf(v),
        state_consistent(v, m),
        op_enabled(v, op),
        op_store_pre(v, m, op),
    ensures
        state_consistent(apply_op(v, op), m),
{
    match op {
        StackOp::NewApplied(n, oid) => lemma_new_applied_consistent(v, m, n, oid),
        StackOp::Push(n, oid) => lemma_push_patch_consistent(v, m, n, oid),
        StackOp::Pop(k, empty_head) => lemma_pop_patches_consistent(v, m, k, empty_head),
        StackOp::Update(n, oid) => lemma_update_patch_consistent(v, m, n, oid),
        StackOp::Rename(o, n) => lemma_rename_patch_consistent(v, m, o, n),
        StackOp::Delete(n, empty_head) => lemma_delete_patch_consistent(v, m, n, empty_head),
        StackOp::Commit(k) => lemma_commit_patches_consistent(v, m, k),
        StackOp::Uncommit(descs) => lemma_uncommit_patches_consistent(v, m, descs),
        StackOp::AdvanceHead(_, _) => {},
    }
}

/// When a sequence of operations may run against an object store: each
/// operation is enabled, with its store conditions, on the snapshot the
/// ones before it produced.
pub open spec fn ops_enabled_for(v: StackView, m: Map<Oid, CommitMeta>, ops: Seq<StackOp>) -> bool
    decreases ops.len(),
{
    ops.len() == 0 || (op_enabled(v, ops[0]) && op_store_pre(v, m, ops[0]) && ops_enabled_for(
        apply_op(v, ops[0]),
        m,
        ops.drop_first(),
    ))
}

/// The empty snapshot satisfies the invariants.
pub proof fn lemma_new_state_wf(head: Oid)
    ensures
        state_wf(spec_new_state(head)),
{
    let v = spec_new_state(head);
    assert forall|x: Seq<char>|
        !(v.applied.to_set() + v.unapplied.to_set() + v.hidden.to_set()).contains(x) by {
        assert(!v.applied.contains(x));
        assert(!v.unapplied.contains(x));
        assert(!v.hidden.contains(x));
    }
    assert(v.patches.dom() =~= v.applied.to_set() + v.unapplied.to_set() + v.hidden.to_set());
}

/// Law: the invariants are preserved along any enabled sequence of
/// operations.
pub proof fn lemma_wf_preserved_by_ops(v: StackView, ops: Seq<StackOp>)
    requires
        state_wf(v),
        ops_enabled(v, ops),
    ensures
        state_wf(apply_ops(v, ops)),
    decreases ops.len(),
{
    if ops.len() > 0 {
        lemma_op_preserves_wf(v, ops[0]);
        lemma_wf_preserved_by_ops(apply_op(v, ops[0]), ops.drop_first());
    }
}

/// Law: every snapshot reachable from the empty stack by transaction
/// operations satisfies the invariants — the three sequences stay
/// duplicate-free and pairwise disjoint, they cover exactly the patch
/// table, every name satisfies the grammar, and the head equals the top
/// applied patch's commit.
pub proof fn lemma_reachable_states_well_formed(head: Oid, ops: Seq<StackOp>)
    requires
        ops_enabled(spec_new_state(head), ops),
    ensures
        state_wf(apply_ops(spec_new_state(head), ops)),
{
    lemma_new_state_wf(head);
    lemma_wf_preserved_by_ops(spec_new_state(head), ops);
}

/// A run enabled against a store is in particular enabled.
proof fn lemma_ops_enabled_for_weaken(v: StackView, m: Map<Oid, CommitMeta>, ops: Seq<StackOp>)
    requires
        ops_enabled_for(v, m, ops),
    ensures
        ops_enabled(v, ops),
    decreases ops.len(),
{
    if ops.len() > 0 {
        lemma_ops_enabled_for_weaken(apply_op(v, ops[0]), m, ops.drop_first());
    }
}

/// Law: consistency with the object store is preserved along any enabled
/// sequence of operations.
pub proof fn lemma_consistent_preserved_by_ops(
    v: StackView,
    m: Map<Oid, CommitMeta>,
    ops: Seq<StackOp>,
)
    requires
        state_wf(v),
        state_consistent(v, m),
        ops_enabled_for(v, m, ops),
    ensures
        state_consistent(apply_ops(v, ops), m),
    decreases ops.len(),
{
    if ops.len() > 0 {
        lemma_op_preserves_wf(v, ops[0]);
        lemma_op_preserves_consistent(v, m, ops[0]);
        lemma_consistent_preserved_by_ops(apply_op(v, ops[0]), m, ops.drop_first());
    }
}

/// Law: every snapshot reachable from the empty stack by transaction
/// operations, run under their store conditions, satisfies all the
/// invariants of the data model: well-formedness, and consistency with the
/// object store — every patch's commit is known with a parent, and
/// consecutive applied patches are linked by first-parent edges.
pub proof fn lemma_reachable_states_satisfy_invariants(
    head: Oid,
    m: Map<Oid, CommitMeta>,
    ops: Seq<StackOp>,
)
    requires
        ops_enabled_for(spec_new_state(head), m, ops),
    ensures
        state_wf(apply_ops(spec_new_state(head), ops)),
        state_consistent(apply_ops(spec_new_state(head), ops), m),
{
    let v = spec_new_state(head);
    lemma_new_state_wf(head);
    lemma_ops_enabled_for_weaken(v, m, ops);
    lemma_wf_preserved_by_ops(v, ops);
    assert(state_consistent(v, m)) by {
        assert(forall|n: Seq<char>| !(#[trigger] v.patches.dom().contains(n)));
    }
    lemma_consistent_preserved_by_ops(v, m, ops);
}

/// Remove the occurrence of a name from a duplicate-free list, in place.
fn remove_from_list(list: &mut Vec<PatchName>, name: &PatchName)
    requires
        names_of(old(list)@).no_duplicates(),
    ensures
        names_of(final(list)@) == remove_first(names_of(old(list)@), name@),
{
    match find_name(list, name) {
        Some(i) => {
            let ghost pre = list@;
            list.remove(i);
            proof {
                lemma_index_of_unique(names_of(pre), i as int, name@);
                lemma_names_remove(pre, i as int);
            }
        },
        None => {},
    }
}

/// Replace the occurrence of a name in a duplicate-free list, in place.
fn rename_in_list(list: &mut Vec<PatchName>, old_name: &PatchName, new_name: &PatchName)
    requires
        names_of(old(list)@).no_duplicates(),
    ensures
        names_of(final(list)@) == replace_name(names_of(old(list)@), old_name@, new_name@),
{
    match find_name(list, old_name) {
        Some(i) => {
            let ghost pre = list@;
            list.remove(i);
            let ghost mid = list@;
            let d = new_name.duplicate();
            list.insert(i, d);
            proof {
                lemma_index_of_unique(names_of(pre), i as int, old_name@);
                pre.remove_ensures(i as int);
                mid.insert_ensures(i as int, d);
                assert(names_of(list@) =~= names_of(pre).update(i as int, new_name@)) by {
                    assert forall|j: int| 0 <= j < list@.len() implies list@[j]@ == names_of(
                        pre,
                    ).update(i as int, new_name@)[j] by {
                        if j < i {
                            assert(list@[j] == mid[j]);
                            assert(mid[j] == pre[j]);
                        } else if j == i {
                            assert(list@[j] == d);
                        } else {
                            assert(list@[j] == mid[j - 1]);
                            assert(mid[j - 1] == pre[j]);
                        }
                    }
                }
            }
        },
        None => {},
    }
}

/// Append copies of all names in `src` to `dst`.
fn append_names(dst: &mut Vec<PatchName>, src: &Vec<PatchName>)
    ensures
        names_of(final(dst)@) == names_of(old(dst)@) + names_of(src@),
{
    let mut i: usize = 0;
    while i < src.len()
        invariant
            i <= src@.len(),
            names_of(dst@) =~= names_of(old(dst)@) + names_of(src@).take(i as int),
        decreases src@.len() - i,
    {
        let d = src[i].duplicate();
        let ghost pre = dst@;
        dst.push(d);
        proof {
            assert(names_of(dst@) =~= names_of(pre).push(d@));
            assert(names_of(dst@) =~= names_of(old(dst)@) + names_of(src@).take(i + 1));
        }
        i += 1;
    }
    assert(names_of(src@).take(src@.len() as int) =~= names_of(src@));
    assert(names_of(dst@) =~= names_of(old(dst)@) + names_of(src@));
}

} // verus!
