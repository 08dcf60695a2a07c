//! The names of the nodes of a net: a one-to-one table between names and identifiers,
//! and the prefix from which the names of new nodes are made.
use vstd::prelude::*;
use bimap::BiMap;

use crate::ids::NodeId;
use crate::text::{
    decimal, decimal_string, lemma_decimal_digits, lemma_decimal_injective, push_char, starts_with,
};

verus! {

/// `bimap::BiHashMap`, the table that holds each name with its identifier. Nothing is
/// known of what is inside a value but what the functions below state.
#[verifier::external_type_specification]
#[verifier::external_body]
#[verifier::reject_recursive_types(L)]
#[verifier::reject_recursive_types(R)]
#[verifier::reject_recursive_types(LS)]
#[verifier::reject_recursive_types(RS)]
pub struct ExBiHashMap<L, R, LS, RS>(bimap::BiHashMap<L, R, LS, RS>);

/// The pairs that a table holds, as a map from each name to its identifier.
pub uninterp spec fn pairs(m: BiMap<String, NodeId>) -> Map<Seq<char>, NodeId>;

/// `m` without the names that stand for `id`.
pub open spec fn drop_right(m: Map<Seq<char>, NodeId>, id: NodeId) -> Map<Seq<char>, NodeId> {
    Map::new(|n: Seq<char>| m.contains_key(n) && m[n] != id, |n: Seq<char>| m[n])
}

/// No two names stand for one identifier.
pub open spec fn one_to_one(m: Map<Seq<char>, NodeId>) -> bool {
    forall|a: Seq<char>, b: Seq<char>|
        m.contains_key(a) && m.contains_key(b) && #[trigger] m[a] == #[trigger] m[b] ==> a == b
}

/// `BiMap::new`: a table without pairs.
#[verifier::external_body]
fn table_new() -> (table: BiMap<String, NodeId>)
    ensures
        pairs(table).dom() == Set::<Seq<char>>::empty(),
{
    BiMap::new()
}

/// `BiMap::len`: the number of pairs.
#[verifier::external_body]
fn table_len(m: &BiMap<String, NodeId>) -> (n: usize)
    ensures
        n == pairs(*m).len(),
{
    m.len()
}

/// `BiMap::get_by_left`: the identifier paired with `name`, if there is one.
#[verifier::external_body]
fn table_get_by_left(m: &BiMap<String, NodeId>, name: &str) -> (r: Option<NodeId>)
    ensures
        r == (if pairs(*m).contains_key(name@) {
            Some(pairs(*m)[name@])
        } else {
            None
        }),
{
    m.get_by_left(name).copied()
}

/// `BiMap::get_by_right`: a name paired with `id`, if there is one.
#[verifier::external_body]
fn table_get_by_right(m: &BiMap<String, NodeId>, id: &NodeId) -> (r: Option<String>)
    ensures
        match r {
            Some(s) => pairs(*m).contains_key(s@) && pairs(*m)[s@] == *id,
            None => forall|n: Seq<char>| pairs(*m).contains_key(n) ==> pairs(*m)[n] != *id,
        },
{
    m.get_by_right(id).cloned()
}

/// `BiMap::remove_by_right`: takes out the pair of `id`, if there is one.
#[verifier::external_body]
fn table_remove_by_right(m: &mut BiMap<String, NodeId>, id: &NodeId)
    ensures
        pairs(*final(m)) == drop_right(pairs(*old(m)), *id),
{
    m.remove_by_right(id);
}

/// `BiMap::insert`: puts the pair in, after taking out any pair that holds `name` or `id`.
#[verifier::external_body]
fn table_insert(m: &mut BiMap<String, NodeId>, name: String, id: NodeId)
    ensures
        pairs(*final(m)) == drop_right(pairs(*old(m)), id).insert(name@, id),
{
    m.insert(name, id);
}

/// The names of the nodes of a net.
#[derive(Debug)]
pub struct Names {
    /// The pairs of a name and the node that bears it.
    table: BiMap<String, NodeId>,
    /// What the names of new nodes begin with.
    prefix: String,
    /// Whether a dash stands between the prefix and the number of a new node.
    dashed: bool,
}

/// What a table of names holds.
pub struct NamesView {
    /// The node of each name.
    pub table: Map<Seq<char>, NodeId>,
    /// What the names of new nodes begin with.
    pub prefix: Seq<char>,
    /// Whether a dash stands between the prefix and the number of a new node.
    pub dashed: bool,
}

/// `prefix`, with as many `a` behind it as it takes to be no prefix of `name`.
pub open spec fn grown_prefix(prefix: Seq<char>, name: Seq<char>) -> Seq<char>
    decreases name.len() + 1 - prefix.len(),
{
    if prefix.is_prefix_of(name) {
        grown_prefix(prefix.push('a'), name)
    } else {
        prefix
    }
}

impl NamesView {
    /// What stands between the prefix and the number in the name of a new node.
    pub open spec fn separator(self) -> Seq<char> {
        if self.dashed {
            seq!['-']
        } else {
            Seq::empty()
        }
    }

    /// The name that a new node gets when the table holds `k` names.
    pub open spec fn auto_name(self, k: nat) -> Seq<char> {
        self.prefix + self.separator() + decimal(k)
    }

    /// The table is finite and one-to-one, and the names that begin with the prefix are
    /// names of new nodes, numbered below the size of the table.
    pub open spec fn wf(self) -> bool {
        &&& self.table.dom().finite()
        &&& one_to_one(self.table)
        &&& forall|n: Seq<char>| #[trigger]
            self.table.contains_key(n) && self.prefix.is_prefix_of(n) ==> exists|k: nat|
                k < self.table.len() && n == #[trigger] self.auto_name(k)
    }

    /// The node that bears `name`.
    pub open spec fn index_of(self, name: Seq<char>) -> Option<NodeId> {
        if self.table.contains_key(name) {
            Some(self.table[name])
        } else {
            None
        }
    }

    /// Some name stands for `id`.
    pub open spec fn has_name(self, id: NodeId) -> bool {
        exists|n: Seq<char>| self.table.contains_key(n) && #[trigger] self.table[n] == id
    }

    /// The name of `id`.
    pub open spec fn name_of(self, id: NodeId) -> Option<Seq<char>> {
        if self.has_name(id) {
            Some(choose|n: Seq<char>| self.table.contains_key(n) && #[trigger] self.table[n] == id)
        } else {
            None
        }
    }

    /// The table after the new node `id` got its name.
    pub open spec fn register(self, id: NodeId) -> NamesView {
        NamesView {
            table: drop_right(self.table, id).insert(self.auto_name(self.table.len()), id),
            ..self
        }
    }

    /// The table after `id` got the name `name`.
    pub open spec fn set(self, id: NodeId, name: Seq<char>) -> NamesView {
        NamesView { table: drop_right(self.table, id).insert(name, id), ..self }
    }

    /// The table with its prefix grown so that it is no prefix of `name`.
    pub open spec fn avoid(self, name: Seq<char>) -> NamesView {
        NamesView { prefix: grown_prefix(self.prefix, name), ..self }
    }

    /// Looking up the name of a node and then the node of that name leads back to the
    /// node, and looking up the node of a name and then the name of that node leads back
    /// to the name; a name that the table does not hold has no node.
    pub proof fn lemma_bijection(self, name: Seq<char>, id: NodeId)
        requires
            self.wf(),
        ensures
            self.table.contains_key(name) ==> self.index_of(name) is Some && self.name_of(
                self.index_of(name)->0,
            ) == Some(name),
            !self.table.contains_key(name) ==> self.index_of(name) is None,
            self.has_name(id) ==> self.name_of(id) is Some && self.index_of(self.name_of(id)->0)
                == Some(id),
            !self.has_name(id) ==> self.name_of(id) is None,
    {
        if self.table.contains_key(name) {
            let i = self.table[name];
            assert(self.has_name(i));
        }
    }
}

/// Two names made of one prefix and different numbers differ.
proof fn lemma_auto_name_injective(v: NamesView, a: nat, b: nat)
    requires
        v.auto_name(a) == v.auto_name(b),
    ensures
        a == b,
{
    let head = v.prefix + v.separator();
    assert(v.auto_name(a).subrange(head.len() as int, v.auto_name(a).len() as int) =~= decimal(a));
    assert(v.auto_name(b).subrange(head.len() as int, v.auto_name(b).len() as int) =~= decimal(b));
    lemma_decimal_injective(a, b);
}

/// Without the names of a node that has none, the table is as before; without those of
/// a node that has one, it is smaller by one name.
proof fn lemma_drop_right(v: NamesView, id: NodeId)
    requires
        v.table.dom().finite(),
        one_to_one(v.table),
    ensures
        drop_right(v.table, id).dom().finite(),
        one_to_one(drop_right(v.table, id)),
        !v.has_name(id) ==> drop_right(v.table, id) == v.table,
        v.has_name(id) ==> drop_right(v.table, id).len() + 1 == v.table.len(),
        forall|n: Seq<char>| #[trigger]
            drop_right(v.table, id).contains_key(n) ==> v.table.contains_key(n) && v.table[n]
                == drop_right(v.table, id)[n] && v.table[n] != id,
        drop_right(drop_right(v.table, id), id) == drop_right(v.table, id),
{
    let d = drop_right(v.table, id);
    assert(d.dom().subset_of(v.table.dom()));
    vstd::set_lib::lemma_len_subset(d.dom(), v.table.dom());
    if v.has_name(id) {
        let n0 = choose|n: Seq<char>| v.table.contains_key(n) && #[trigger] v.table[n] == id;
        assert(d.dom() =~= v.table.dom().remove(n0));
    } else {
        assert(d =~= v.table);
    }
    assert(drop_right(d, id) =~= d);
}

/// A growing prefix ends as no prefix of the name, and begins as it was.
proof fn lemma_grown_prefix(prefix: Seq<char>, name: Seq<char>)
    ensures
        !grown_prefix(prefix, name).is_prefix_of(name),
        prefix.is_prefix_of(grown_prefix(prefix, name)),
        prefix.is_prefix_of(name) ==> grown_prefix(prefix, name).len() > prefix.len()
            && grown_prefix(prefix, name)[prefix.len() as int] == 'a',
        !prefix.is_prefix_of(name) ==> grown_prefix(prefix, name) == prefix,
    decreases name.len() + 1 - prefix.len(),
{
    if prefix.is_prefix_of(name) {
        let next = prefix.push('a');
        lemma_grown_prefix(next, name);
        let g = grown_prefix(next, name);
        assert(next.is_prefix_of(g));
        assert(g.subrange(0, next.len() as int) == next);
        assert(prefix =~= g.subrange(0, prefix.len() as int)) by {
            assert(next.subrange(0, prefix.len() as int) =~= prefix);
            assert(g.subrange(0, next.len() as int).subrange(0, prefix.len() as int)
                =~= g.subrange(0, prefix.len() as int));
        }
        assert(g[prefix.len() as int] == next[prefix.len() as int]) by {
            assert(g.subrange(0, next.len() as int)[prefix.len() as int] == g[prefix.len() as int]);
        }
    } else {
        assert(prefix.subrange(0, prefix.len() as int) =~= prefix);
    }
}

impl View for Names {
    type V = NamesView;

    closed spec fn view(&self) -> NamesView {
        NamesView { table: pairs(self.table), prefix: self.prefix@, dashed: self.dashed }
    }
}

impl Names {
    /// An empty table with an empty prefix.
    pub fn new(dashed: bool) -> (names: Names)
        ensures
            names@.wf(),
            names@.table.dom() == Set::<Seq<char>>::empty(),
            names@.prefix == Seq::<char>::empty(),
            names@.dashed == dashed,
    {
        let table = table_new();
        proof {
            assert(pairs(table).dom().finite());
        }
        Names { table, prefix: String::new(), dashed }
    }

    /// The number of names.
    pub fn len(&self) -> (n: usize)
        ensures
            n == self@.table.len(),
    {
        table_len(&self.table)
    }

    /// The node that bears `name`.
    pub fn get_index_by_name(&self, name: &str) -> (r: Option<NodeId>)
        ensures
            r == self@.index_of(name@),
    {
        table_get_by_left(&self.table, name)
    }

    /// The name of `id`.
    pub fn get_name_by_index(&self, id: &NodeId) -> (r: Option<String>)
        requires
            self@.wf(),
        ensures
            match r {
                Some(s) => self@.name_of(*id) == Some(s@),
                None => self@.name_of(*id) is None,
            },
    {
        let r = table_get_by_right(&self.table, id);
        proof {
            if r is Some {
                assert(self@.table[r->0@] == *id);
                assert(self@.has_name(*id));
            }
        }
        r
    }

    /// Gives the new node `id` the next free name.
    pub fn register(&mut self, id: NodeId)
        requires
            old(self)@.wf(),
            !old(self)@.has_name(id),
        ensures
            final(self)@.wf(),
            final(self)@ == old(self)@.register(id),
            final(self)@.table.len() == old(self)@.table.len() + 1,
            !old(self)@.table.contains_key(old(self)@.auto_name(old(self)@.table.len())),
    {
        let ghost v = self@;
        let n = table_len(&self.table);
        let digits = decimal_string(n);
        let mut name = self.prefix.clone();
        if self.dashed {
            push_char(&mut name, '-');
        }
        name.append(digits.as_str());
        proof {
            assert(name@ =~= v.auto_name(n as nat));
            lemma_drop_right(v, id);
            lemma_register_wf(v, id);
        }
        table_insert(&mut self.table, name, id);
        proof {
            assert(self@.table == v.register(id).table);
        }
    }

    /// Grows the prefix until it is no prefix of `name`.
    pub fn avoid(&mut self, name: &str)
        requires
            old(self)@.wf(),
        ensures
            final(self)@.wf(),
            final(self)@ == old(self)@.avoid(name@),
            !final(self)@.prefix.is_prefix_of(name@),
    {
        let ghost v = self@;
        proof {
            lemma_grown_prefix(v.prefix, name@);
            lemma_avoid(v, name@);
        }
        if starts_with(name, self.prefix.as_str()) {
            push_char(&mut self.prefix, 'a');
            while starts_with(name, self.prefix.as_str())
                invariant
                    self.table == old(self).table,
                    self.dashed == old(self).dashed,
                    grown_prefix(self.prefix@, name@) == grown_prefix(v.prefix, name@),
                    self.prefix@.len() <= name@.len() + 1,
                decreases name@.len() + 1 - self.prefix@.len(),
            {
                push_char(&mut self.prefix, 'a');
            }
        }
    }

    /// Gives `id` the name `name`, which no node bears and which the prefix does not begin.
    pub fn set(&mut self, id: NodeId, name: &str)
        requires
            old(self)@.wf(),
            !old(self)@.table.contains_key(name@),
            !old(self)@.prefix.is_prefix_of(name@),
        ensures
            final(self)@.wf(),
            final(self)@ == old(self)@.set(id, name@),
            final(self)@.table.len() >= old(self)@.table.len(),
    {
        let ghost v = self@;
        proof {
            lemma_drop_right(v, id);
            lemma_set(v, id, name@);
        }
        table_remove_by_right(&mut self.table, &id);
        let owned = name.to_owned();
        table_insert(&mut self.table, owned, id);
        proof {
            assert(self@.table == v.set(id, name@).table);
        }
    }
}

/// Giving a name to a node that has none keeps the table well formed, and the name it
/// gets was free.
pub proof fn lemma_register_wf(v: NamesView, id: NodeId)
    requires
        v.wf(),
        !v.has_name(id),
    ensures
        v.register(id).wf(),
        !v.table.contains_key(v.auto_name(v.table.len())),
        v.register(id).table == v.table.insert(v.auto_name(v.table.len()), id),
        v.register(id).table.len() == v.table.len() + 1,
{
    let n = v.table.len();
    let name = v.auto_name(n);
    lemma_drop_right(v, id);
    assert(v.prefix.is_prefix_of(name)) by {
        assert(name.subrange(0, v.prefix.len() as int) =~= v.prefix);
    }
    if v.table.contains_key(name) {
        let k = choose|k: nat| k < v.table.len() && name == #[trigger] v.auto_name(k);
        lemma_auto_name_injective(v, k, n);
    }
    let w = v.register(id);
    assert(w.table.dom() =~= v.table.dom().insert(name));
    assert forall|a: Seq<char>| #[trigger]
        w.table.contains_key(a) && w.prefix.is_prefix_of(a) implies exists|k: nat|
        k < w.table.len() && a == #[trigger] w.auto_name(k) by {
        if a == name {
            assert(a == w.auto_name(n));
        } else {
            let k = choose|k: nat| k < v.table.len() && a == #[trigger] v.auto_name(k);
            assert(a == w.auto_name(k));
        }
    }
}

/// Growing the prefix away from a name keeps the table well formed.
pub proof fn lemma_avoid(v: NamesView, name: Seq<char>)
    requires
        v.wf(),
    ensures
        v.avoid(name).wf(),
        !v.avoid(name).prefix.is_prefix_of(name),
        v.avoid(name).table == v.table,
{
    lemma_grown_prefix(v.prefix, name);
    let w = v.avoid(name);
    if v.prefix.is_prefix_of(name) {
        assert forall|n: Seq<char>| #[trigger]
            w.table.contains_key(n) && w.prefix.is_prefix_of(n) implies exists|k: nat|
            k < w.table.len() && n == #[trigger] w.auto_name(k) by {
            let p = v.prefix.len() as int;
            assert(w.prefix[p] == 'a');
            assert(n.subrange(0, w.prefix.len() as int) == w.prefix);
            assert(n[p] == n.subrange(0, w.prefix.len() as int)[p]);
            assert(v.prefix.is_prefix_of(n)) by {
                assert(n.subrange(0, w.prefix.len() as int).subrange(0, p) =~= n.subrange(0, p));
                assert(w.prefix.subrange(0, p) == v.prefix);
            }
            let k = choose|k: nat| k < v.table.len() && n == #[trigger] v.auto_name(k);
            lemma_decimal_digits(k);
            if v.dashed {
                assert(v.auto_name(k)[p] == '-');
            } else {
                assert(v.auto_name(k)[p] == decimal(k)[0]);
            }
        }
    }
}

/// Giving a node a free name that the prefix does not begin keeps the table well formed.
pub proof fn lemma_set(v: NamesView, id: NodeId, name: Seq<char>)
    requires
        v.wf(),
        !v.table.contains_key(name),
        !v.prefix.is_prefix_of(name),
    ensures
        v.set(id, name).wf(),
        v.set(id, name).table.len() >= v.table.len(),
        forall|n: Seq<char>| #[trigger]
            v.set(id, name).table.contains_key(n) ==> n == name || (v.table.contains_key(n)
                && v.table[n] == v.set(id, name).table[n]),
        forall|n: Seq<char>|
            v.table.contains_key(n) && #[trigger] v.table[n] != id ==> v.set(
                id,
                name,
            ).table.contains_key(n) && v.set(id, name).table[n] == v.table[n],
{
    lemma_drop_right(v, id);
    let w = v.set(id, name);
    let d = drop_right(v.table, id);
    assert(w.table.dom() =~= d.dom().insert(name));
    assert forall|a: Seq<char>| #[trigger]
        w.table.contains_key(a) && w.prefix.is_prefix_of(a) implies exists|k: nat|
        k < w.table.len() && a == #[trigger] w.auto_name(k) by {
        assert(d.contains_key(a));
        let k = choose|k: nat| k < v.table.len() && a == #[trigger] v.auto_name(k);
        assert(a == w.auto_name(k));
    }
}

} // verus!
