//! The zone: which records stand under which name, and how one question is
//! resolved against it.

use crate::parser::Type;
use crate::record::{Name, Record, RecordView};
use vstd::prelude::*;
use vstd::slice::slice_subrange;

verus! {

/// What a zone holds: for each name that has records, its records in order.
pub type ZoneView = Map<Seq<Seq<char>>, Seq<RecordView>>;

/// The records that stand under exactly `name`, none if the zone does not
/// know the name.
pub open spec fn records_at(zone: ZoneView, name: Seq<Seq<char>>) -> Seq<RecordView> {
    if zone.contains_key(name) {
        zone[name]
    } else {
        Seq::empty()
    }
}

/// The records of type `ty` that stand under exactly `name`, in their order.
pub open spec fn lookup_exact(zone: ZoneView, name: Seq<Seq<char>>, ty: Type) -> Seq<RecordView> {
    records_at(zone, name).filter(|r: RecordView| r.inner.ty() == ty)
}

/// The name at which a lookup of `ty` for `name` comes to rest. A type that
/// marks a zone cut climbs from a name without such records to the name
/// without its first label, as long as more than one label is left; any other
/// type stays where it is.
pub open spec fn lookup_scope(zone: ZoneView, name: Seq<Seq<char>>, ty: Type) -> Seq<Seq<char>>
    decreases name.len(),
{
    if lookup_exact(zone, name, ty).len() == 0 && ty.spec_need_recursive() && name.len() > 1 {
        lookup_scope(zone, name.drop_first(), ty)
    } else {
        name
    }
}

/// A lookup: the name at which it came to rest, and the records of the type
/// found there.
pub open spec fn lookup(zone: ZoneView, name: Seq<Seq<char>>, ty: Type) -> (
    Seq<Seq<char>>,
    Seq<RecordView>,
) {
    let scope = lookup_scope(zone, name, ty);
    (scope, lookup_exact(zone, scope, ty))
}

/// The answer to a question for `ty` at `name`, in four steps: the lookup
/// itself; where it finds nothing, and the type is neither CNAME nor NS, a
/// lookup of CNAME; where there is an answer and the type marks a zone cut
/// without being NS, the lookup of NS in its place if that came to rest at a
/// strictly longer name; and where there is still nothing, and the type is not
/// NS, the lookup of NS.
pub open spec fn resolution(zone: ZoneView, name: Seq<Seq<char>>, ty: Type) -> (
    Seq<Seq<char>>,
    Seq<RecordView>,
) {
    let direct = lookup(zone, name, ty);
    let aliased = if direct.1.len() == 0 && ty != Type::CNAME && ty != Type::NS {
        lookup(zone, name, Type::CNAME)
    } else {
        direct
    };
    let delegation = lookup(zone, name, Type::NS);
    let cut = if aliased.1.len() > 0 && ty.spec_need_recursive() && ty != Type::NS
        && delegation.0.len() > aliased.0.len() {
        delegation
    } else {
        aliased
    };
    if cut.1.len() == 0 && ty != Type::NS {
        delegation
    } else {
        cut
    }
}

/// The zone after one name was given new records: with records, they stand
/// under the name in place of what stood there; without, the name leaves the
/// zone.
pub open spec fn zone_with(
    zone: ZoneView,
    name: Seq<Seq<char>>,
    records: Seq<RecordView>,
) -> ZoneView {
    if records.len() == 0 {
        zone.remove(name)
    } else {
        zone.insert(name, records)
    }
}

/// The zone that a list of entries builds up, each in its turn put under its
/// name: of two entries under one name the later counts.
pub open spec fn zone_from(entries: Seq<(Seq<Seq<char>>, Seq<RecordView>)>) -> ZoneView
    decreases entries.len(),
{
    if entries.len() == 0 {
        Map::empty()
    } else {
        zone_with(zone_from(entries.drop_last()), entries.last().0, entries.last().1)
    }
}

/// What a list of entries holds.
pub open spec fn entries_view(entries: Seq<(Name, Vec<Record>)>) -> Seq<
    (Seq<Seq<char>>, Seq<RecordView>),
> {
    entries.map_values(|e: (Name, Vec<Record>)| (e.0@, e.1.deep_view()))
}

/// A nearer zone cut wins. Where a question for a type that marks a zone cut,
/// other than NS itself, has an answer, and the lookup of NS comes to rest at a
/// strictly longer name than that answer, the resolution is the lookup of NS.
pub proof fn lemma_nearer_delegation_wins(zone: ZoneView, name: Seq<Seq<char>>, ty: Type)
    requires
        ty.spec_need_recursive(),
        ty != Type::NS,
        lookup(zone, name, ty).1.len() > 0,
        lookup(zone, name, Type::NS).0.len() > lookup(zone, name, ty).0.len(),
    ensures
        resolution(zone, name, ty) == lookup(zone, name, Type::NS),
        resolution(zone, name, ty).1.len() > 0,
{
    lemma_scope_is_suffix(zone, name, Type::NS);
    lemma_scope_is_suffix(zone, name, ty);
}

/// A lookup comes to rest at a suffix of the name it started from, and never
/// at the empty name unless it started there. It moves only for a type that
/// marks a zone cut, and where such a type finds nothing, one label is left.
pub proof fn lemma_scope_is_suffix(zone: ZoneView, name: Seq<Seq<char>>, ty: Type)
    ensures
        lookup_scope(zone, name, ty).len() <= name.len(),
        lookup_scope(zone, name, ty) == name.skip(
            name.len() - lookup_scope(zone, name, ty).len(),
        ),
        name.len() >= 1 ==> lookup_scope(zone, name, ty).len() >= 1,
        !ty.spec_need_recursive() ==> lookup_scope(zone, name, ty) == name,
        lookup(zone, name, ty).1.len() == 0 && ty.spec_need_recursive() && name.len() >= 1
            ==> lookup_scope(zone, name, ty).len() == 1,
    decreases name.len(),
{
    if lookup_exact(zone, name, ty).len() == 0 && ty.spec_need_recursive() && name.len() > 1 {
        let rest = name.drop_first();
        lemma_scope_is_suffix(zone, rest, ty);
        let scope = lookup_scope(zone, rest, ty);
        assert(rest.skip(rest.len() - scope.len()) =~= name.skip(name.len() - scope.len()));
    } else {
        assert(name.skip(0) =~= name);
    }
}

/// No two entries carry the same name.
spec fn names_differ(base: Seq<(Name, Vec<Record>)>) -> bool {
    forall|i: int, j: int|
        0 <= i < j < base.len() ==> (#[trigger] base[i]).0@ != (#[trigger] base[j]).0@
}

/// Entry `i` carries `key` and has records.
spec fn holds(base: Seq<(Name, Vec<Record>)>, key: Seq<Seq<char>>, i: int) -> bool {
    0 <= i < base.len() && base[i].0@ == key && base[i].1@.len() > 0
}

/// The zone that a list of entries stands for: each name with records maps
/// to them.
spec fn zone_of(base: Seq<(Name, Vec<Record>)>) -> ZoneView {
    Map::new(
        |key: Seq<Seq<char>>| exists|i: int| holds(base, key, i),
        |key: Seq<Seq<char>>| base[choose|i: int| holds(base, key, i)].1.deep_view(),
    )
}

/// An entry with records is found under its name, with those records.
proof fn lemma_zone_entry(base: Seq<(Name, Vec<Record>)>, i: int)
    requires
        names_differ(base),
        0 <= i < base.len(),
    ensures
        base[i].1@.len() > 0 ==> zone_of(base).contains_key(base[i].0@) && zone_of(base)[base[i].0@]
            == base[i].1.deep_view(),
        base[i].1@.len() == 0 ==> !zone_of(base).contains_key(base[i].0@),
{
    let key = base[i].0@;
    if base[i].1@.len() > 0 {
        assert(holds(base, key, i));
        let j = choose|j: int| holds(base, key, j);
        assert(holds(base, key, j));
        assert(j == i) by {
            if j < i {
                assert(base[j].0@ != base[i].0@);
            } else if i < j {
                assert(base[i].0@ != base[j].0@);
            }
        }
    } else {
        assert forall|j: int| !holds(base, key, j) by {
            if 0 <= j < base.len() && j != i {
                if j < i {
                    assert(base[j].0@ != base[i].0@);
                } else {
                    assert(base[i].0@ != base[j].0@);
                }
            }
        }
    }
}

/// A name that no entry carries is not in the zone.
proof fn lemma_zone_absent(base: Seq<(Name, Vec<Record>)>, key: Seq<Seq<char>>)
    requires
        forall|j: int| 0 <= j < base.len() ==> (#[trigger] base[j]).0@ != key,
    ensures
        !zone_of(base).contains_key(key),
{
    assert forall|j: int| !holds(base, key, j) by {
        if 0 <= j < base.len() {
            assert(base[j].0@ != key);
        }
    }
}

/// No entries stand for the empty zone.
proof fn lemma_zone_of_nothing()
    ensures
        zone_of(Seq::empty()) == Map::<Seq<Seq<char>>, Seq<RecordView>>::empty(),
{
    assert forall|key: Seq<Seq<char>>| !zone_of(Seq::empty()).contains_key(key) by {
        lemma_zone_absent(Seq::empty(), key);
    }
    assert(zone_of(Seq::empty()) =~= Map::<Seq<Seq<char>>, Seq<RecordView>>::empty());
}

/// What the zone holds under each name is what some entry holds.
proof fn lemma_zone_witness(base: Seq<(Name, Vec<Record>)>, key: Seq<Seq<char>>) -> (i: int)
    requires
        names_differ(base),
        zone_of(base).contains_key(key),
    ensures
        holds(base, key, i),
        zone_of(base)[key] == base[i].1.deep_view(),
{
    let i = choose|i: int| holds(base, key, i);
    assert(holds(base, key, i));
    i
}

/// Replacing the entry of a name gives the name its new records and leaves
/// the rest of the zone alone.
proof fn lemma_zone_replace(
    old_base: Seq<(Name, Vec<Record>)>,
    new_base: Seq<(Name, Vec<Record>)>,
    i: int,
)
    requires
        names_differ(old_base),
        0 <= i < old_base.len(),
        new_base.len() == old_base.len(),
        new_base[i].0@ == old_base[i].0@,
        forall|j: int| 0 <= j < old_base.len() && j != i ==> new_base[j] == old_base[j],
    ensures
        names_differ(new_base),
        zone_of(new_base) == zone_with(
            zone_of(old_base),
            new_base[i].0@,
            new_base[i].1.deep_view(),
        ),
{
    let name = new_base[i].0@;
    let expected = zone_with(zone_of(old_base), name, new_base[i].1.deep_view());
    assert(names_differ(new_base)) by {
        assert forall|a: int, b: int| 0 <= a < b < new_base.len() implies (#[trigger] new_base[
            a
        ]).0@ != (#[trigger] new_base[b]).0@ by {
            assert(old_base[a].0@ != old_base[b].0@);
        }
    }
    assert forall|key: Seq<Seq<char>>|
        #![trigger zone_of(new_base).dom().contains(key)]
        #![trigger expected.dom().contains(key)]
        #![trigger zone_of(new_base)[key]]
        #![trigger expected[key]]
        zone_of(new_base).dom().contains(key) == expected.dom().contains(key) && (zone_of(
            new_base,
        ).dom().contains(key) ==> zone_of(new_base)[key] == expected[key]) by {
        if key == name {
            lemma_zone_entry(new_base, i);
        } else {
            if zone_of(new_base).contains_key(key) {
                let j = lemma_zone_witness(new_base, key);
                assert(j != i);
                assert(holds(old_base, key, j));
                lemma_zone_entry(old_base, j);
            }
            if zone_of(old_base).contains_key(key) {
                let j = lemma_zone_witness(old_base, key);
                assert(j != i);
                assert(holds(new_base, key, j));
                lemma_zone_entry(new_base, j);
            }
        }
    }
    assert(zone_of(new_base) =~= expected);
}

/// Adding an entry for a new name gives the name its records and leaves the
/// rest of the zone alone.
proof fn lemma_zone_push(old_base: Seq<(Name, Vec<Record>)>, entry: (Name, Vec<Record>))
    requires
        names_differ(old_base),
        forall|j: int| 0 <= j < old_base.len() ==> (#[trigger] old_base[j]).0@ != entry.0@,
    ensures
        names_differ(old_base.push(entry)),
        zone_of(old_base.push(entry)) == zone_with(
            zone_of(old_base),
            entry.0@,
            entry.1.deep_view(),
        ),
{
    let new_base = old_base.push(entry);
    let i = old_base.len() as int;
    let name = entry.0@;
    let expected = zone_with(zone_of(old_base), name, entry.1.deep_view());
    assert(names_differ(new_base)) by {
        assert forall|a: int, b: int| 0 <= a < b < new_base.len() implies (#[trigger] new_base[
            a
        ]).0@ != (#[trigger] new_base[b]).0@ by {
            if b < i {
                assert(old_base[a].0@ != old_base[b].0@);
            } else {
                assert(old_base[a].0@ != entry.0@);
            }
        }
    }
    lemma_zone_absent(old_base, name);
    assert forall|key: Seq<Seq<char>>|
        #![trigger zone_of(new_base).dom().contains(key)]
        #![trigger expected.dom().contains(key)]
        #![trigger zone_of(new_base)[key]]
        #![trigger expected[key]]
        zone_of(new_base).dom().contains(key) == expected.dom().contains(key) && (zone_of(
            new_base,
        ).dom().contains(key) ==> zone_of(new_base)[key] == expected[key]) by {
        if key == name {
            lemma_zone_entry(new_base, i);
        } else {
            if zone_of(new_base).contains_key(key) {
                let j = lemma_zone_witness(new_base, key);
                assert(j != i);
                assert(holds(old_base, key, j));
                lemma_zone_entry(old_base, j);
            }
            if zone_of(old_base).contains_key(key) {
                let j = lemma_zone_witness(old_base, key);
                assert(holds(new_base, key, j));
                lemma_zone_entry(new_base, j);
            }
        }
    }
    assert(zone_of(new_base) =~= expected);
}

/// Whether two label sequences are the same name.
pub fn same_name(a: &[String], b: &[String]) -> (same: bool)
    ensures
        same == (a.deep_view() == b.deep_view()),
{
    if a.len() != b.len() {
        assert(a.deep_view().len() != b.deep_view().len());
        return false;
    }
    let mut i: usize = 0;
    while i < a.len()
        invariant
            i <= a@.len(),
            a@.len() == b@.len(),
            forall|j: int| 0 <= j < i ==> a@[j]@ == b@[j]@,
        decreases a@.len() - i,
    {
        if a[i] != b[i] {
            assert(a.deep_view()[i as int] != b.deep_view()[i as int]);
            return false;
        }
        i += 1;
    }
    assert(a.deep_view() =~= b.deep_view());
    true
}

/// The records of a zone, by name. A name stands in it once, and a name that
/// stands in it has at least one record.
pub struct RecordStorage {
    base: Vec<(Name, Vec<Record>)>,
}

impl View for RecordStorage {
    type V = ZoneView;

    closed spec fn view(&self) -> ZoneView {
        zone_of(self.base@)
    }
}

impl RecordStorage {
    #[verifier::type_invariant]
    spec fn inv(self) -> bool {
        names_differ(self.base@)
    }

    /// Every name of the zone has at least one record.
    pub proof fn lemma_names_have_records(&self, name: Seq<Seq<char>>)
        requires
            self@.contains_key(name),
        ensures
            self@[name].len() > 0,
    {
        let i = choose|i: int| holds(self.base@, name, i);
        assert(holds(self.base@, name, i));
    }

    /// An empty zone.
    pub fn new() -> (storage: Self)
        ensures
            storage@ == Map::<Seq<Seq<char>>, Seq<RecordView>>::empty(),
    {
        let storage = RecordStorage { base: Vec::new() };
        proof {
            lemma_zone_of_nothing();
            assert(storage.base@ =~= Seq::empty());
        }
        storage
    }

    /// Where the entry of a name stands, if the name has one.
    fn position(base: &Vec<(Name, Vec<Record>)>, segs: &[String]) -> (at: Option<usize>)
        ensures
            match at {
                Some(i) => i < base@.len() && base@[i as int].0@ == segs.deep_view(),
                None => forall|j: int|
                    0 <= j < base@.len() ==> (#[trigger] base@[j]).0@ != segs.deep_view(),
            },
    {
        let mut i: usize = 0;
        while i < base.len()
            invariant
                i <= base@.len(),
                forall|j: int| 0 <= j < i ==> (#[trigger] base@[j]).0@ != segs.deep_view(),
            decreases base@.len() - i,
        {
            if same_name(base[i].0.labels(), segs) {
                return Some(i);
            }
            i += 1;
        }
        None
    }

    /// Puts an entry into a list of entries: in place of the entry of the same
    /// name where there is one, else at the end.
    fn put(base: &mut Vec<(Name, Vec<Record>)>, name: Name, records: Vec<Record>)
        requires
            names_differ(old(base)@),
        ensures
            names_differ(final(base)@),
            zone_of(final(base)@) == zone_with(zone_of(old(base)@), name@, records.deep_view()),
    {
        let ghost before = base@;
        match Self::position(base, name.labels()) {
            Some(i) => {
                base.set(i, (name, records));
                proof {
                    lemma_zone_replace(before, base@, i as int);
                }
            },
            None => {
                base.push((name, records));
                proof {
                    lemma_zone_push(before, (name, records));
                }
            },
        }
    }

    /// The zone that holds the given entries. Of two entries under one name
    /// the later counts, and an entry without records leaves its name out.
    pub fn from_entries(entries: Vec<(Name, Vec<Record>)>) -> (storage: Self)
        ensures
            storage@ == zone_from(entries_view(entries@)),
    {
        let ghost all = entries@;
        let mut base: Vec<(Name, Vec<Record>)> = Vec::new();
        proof {
            lemma_zone_of_nothing();
            assert(base@ =~= Seq::empty());
            assert(entries_view(all.take(0)) =~= Seq::empty());
        }
        for entry in it: entries
            invariant
                it.seq() == all,
                names_differ(base@),
                zone_of(base@) == zone_from(entries_view(all.take(it.index() as int))),
        {
            proof {
                let upto = entries_view(all.take(it.index() + 1));
                assert(upto.drop_last() =~= entries_view(all.take(it.index() as int)));
                assert(upto.last() == (entry.0@, entry.1.deep_view()));
            }
            Self::put(&mut base, entry.0, entry.1);
        }
        assert(all.take(all.len() as int) =~= all);
        RecordStorage { base }
    }

    /// All the records that stand under exactly `segs`, in their order.
    pub fn query_all(&self, segs: &[String]) -> (found: Vec<&Record>)
        ensures
            found.deep_view() == records_at(self@, segs.deep_view()),
    {
        proof {
            use_type_invariant(self);
        }
        let mut found: Vec<&Record> = Vec::new();
        match Self::position(&self.base, segs) {
            None => {
                proof {
                    lemma_zone_absent(self.base@, segs.deep_view());
                    assert(found.deep_view() =~= Seq::<RecordView>::empty());
                }
            },
            Some(i) => {
                let records = &self.base[i].1;
                let mut j: usize = 0;
                while j < records.len()
                    invariant
                        j <= records@.len(),
                        found@.len() == j,
                        forall|k: int| 0 <= k < j ==> *found@[k] == records@[k],
                    decreases records@.len() - j,
                {
                    found.push(&records[j]);
                    j += 1;
                }
                proof {
                    lemma_zone_entry(self.base@, i as int);
                    assert(found.deep_view() =~= records.deep_view());
                    if records@.len() == 0 {
                        assert(found.deep_view() =~= Seq::<RecordView>::empty());
                    }
                }
            },
        }
        found
    }

    /// The records of type `ty` under `segs`, or, for a type that marks a zone
    /// cut, under the nearest enclosing name that has such records; with them
    /// the name they were found at.
    pub fn query<'a>(&self, segs: &'a [String], ty: Type) -> (res: (&'a [String], Vec<&Record>))
        ensures
            (res.0.deep_view(), res.1.deep_view()) == lookup(self@, segs.deep_view(), ty),
    {
        let ghost full = segs.deep_view();
        let mut start: usize = 0;
        assert(full.skip(0) =~= full);
        loop
            invariant
                start <= segs@.len(),
                full == segs.deep_view(),
                lookup_scope(self@, full, ty) == lookup_scope(self@, full.skip(start as int), ty),
            decreases segs@.len() - start,
        {
            let scope = slice_subrange(segs, start, segs.len());
            assert(scope.deep_view() =~= full.skip(start as int));
            let all = self.query_all(scope);
            let mut collected: Vec<&Record> = Vec::new();
            let mut i: usize = 0;
            let ghost pred = |r: RecordView| r.inner.ty() == ty;
            assert(all.deep_view().take(0).filter(pred) =~= Seq::<RecordView>::empty()) by {
                reveal(Seq::filter);
            }
            assert(collected.deep_view() =~= Seq::<RecordView>::empty());
            while i < all.len()
                invariant
                    i <= all@.len(),
                    pred == (|r: RecordView| r.inner.ty() == ty),
                    collected.deep_view() == all.deep_view().take(i as int).filter(pred),
                decreases all@.len() - i,
            {
                let item = all[i];
                let ghost before = collected.deep_view();
                proof {
                    reveal(Seq::filter);
                    let upto = all.deep_view().take(i as int + 1);
                    assert(upto.drop_last() =~= all.deep_view().take(i as int));
                    assert(upto.last() == item@);
                }
                if item.inner.ty() == ty {
                    collected.push(item);
                    assert(collected.deep_view() =~= before.push(item@));
                }
                i += 1;
            }
            assert(all.deep_view().take(i as int) =~= all.deep_view());
            if collected.len() == 0 && ty.need_recursive() && segs.len() - start > 1 {
                assert(full.skip(start as int).drop_first() =~= full.skip(start as int + 1));
                start += 1;
            } else {
                return (scope, collected);
            }
        }
    }

    /// Resolves one question: the records that answer it, and the name they
    /// were found at.
    pub fn resolve<'a>(&self, segs: &'a [String], ty: Type) -> (res: (&'a [String], Vec<&Record>))
        ensures
            (res.0.deep_view(), res.1.deep_view()) == resolution(self@, segs.deep_view(), ty),
    {
        let (mut scope, mut answers) = self.query(segs, ty);
        if answers.len() == 0 && ty != Type::CNAME && ty != Type::NS {
            let (s, a) = self.query(segs, Type::CNAME);
            scope = s;
            answers = a;
        }
        if answers.len() > 0 && ty.need_recursive() && ty != Type::NS {
            let (nsscope, nsanswers) = self.query(segs, Type::NS);
            if nsscope.len() > scope.len() {
                scope = nsscope;
                answers = nsanswers;
            }
        }
        if answers.len() == 0 && ty != Type::NS {
            let (s, a) = self.query(segs, Type::NS);
            scope = s;
            answers = a;
        }
        (scope, answers)
    }
}

} // verus!
