//! The versions table of the store, as far as reconciliation reads and writes it.

use vstd::prelude::*;
use crate::record::text_of;

verus! {

/// One row: a published version of a package.
#[derive(Clone, Debug, PartialEq, Eq)]
pub struct Version {
    pub id: i32,
    pub crate_name: String,
    pub num: String,
    pub links: Option<String>,
}

/// Model of a [`Version`].
pub struct VersionModel {
    pub id: i32,
    pub crate_name: Seq<char>,
    pub num: Seq<char>,
    pub links: Option<Seq<char>>,
}

impl View for Version {
    type V = VersionModel;

    open spec fn view(&self) -> VersionModel {
        VersionModel {
            id: self.id,
            crate_name: self.crate_name@,
            num: self.num@,
            links: text_of(self.links),
        }
    }
}

/// The models of a list of rows.
pub open spec fn versions_of(v: Seq<Version>) -> Seq<VersionModel> {
    Seq::new(v.len(), |i: int| v[i]@)
}

/// What the store answers when asked for the id of a version.
#[derive(Clone, Debug, PartialEq, Eq)]
pub enum Lookup {
    /// The id of the matching row.
    Found(i32),
    /// No row matches.
    Missing,
    /// The store could not answer; the text says why.
    Failed(String),
}

/// The row is version `num` of package `name`.
pub open spec fn names(row: VersionModel, name: Seq<char>, num: Seq<char>) -> bool {
    row.crate_name == name && row.num == num
}

/// Two rows that may stand in one table: they differ in id and do not name the
/// same version of the same package.
pub open spec fn distinct(a: VersionModel, b: VersionModel) -> bool {
    a.id != b.id && !names(a, b.crate_name, b.num)
}

/// Every two rows of the table are distinct.
pub open spec fn well_formed(rows: Seq<VersionModel>) -> bool {
    forall|i: int, j: int| 0 <= i < j < rows.len() ==> distinct(#[trigger] rows[i], #[trigger] rows[j])
}

/// The id of the first row that is version `num` of package `name`.
pub open spec fn resolve(rows: Seq<VersionModel>, name: Seq<char>, num: Seq<char>) -> Option<i32>
    decreases rows.len(),
{
    if rows.len() == 0 {
        None
    } else if names(rows[0], name, num) {
        Some(rows[0].id)
    } else {
        resolve(rows.drop_first(), name, num)
    }
}

/// The conditional update applies to the row: it has the id and no links yet.
pub open spec fn vacant(row: VersionModel, id: i32) -> bool {
    row.id == id && row.links is None
}

/// The table after the conditional update: every vacant row with the id gets
/// the links, every other row stays as it is.
pub open spec fn filled(rows: Seq<VersionModel>, id: i32, links: Option<Seq<char>>) -> Seq<
    VersionModel,
> {
    Seq::new(
        rows.len(),
        |i: int|
            if vacant(rows[i], id) {
                VersionModel { id: rows[i].id, crate_name: rows[i].crate_name, num: rows[i].num, links }
            } else {
                rows[i]
            },
    )
}

/// The number of rows that the conditional update changes.
pub open spec fn vacancies(rows: Seq<VersionModel>, id: i32) -> nat
    decreases rows.len(),
{
    if rows.len() == 0 {
        0
    } else {
        vacancies(rows.drop_last(), id) + if vacant(rows.last(), id) {
            1nat
        } else {
            0nat
        }
    }
}

/// A table without a matching row resolves nothing, and a resolved id belongs
/// to the first matching row.
pub proof fn lemma_resolve(rows: Seq<VersionModel>, name: Seq<char>, num: Seq<char>)
    ensures
        match resolve(rows, name, num) {
            Some(id) => exists|i: int|
                0 <= i < rows.len() && names(#[trigger] rows[i], name, num) && rows[i].id == id
                    && forall|j: int| 0 <= j < i ==> !names(#[trigger] rows[j], name, num),
            None => forall|i: int| 0 <= i < rows.len() ==> !names(#[trigger] rows[i], name, num),
        },
    decreases rows.len(),
{
    if rows.len() == 0 {
    } else if names(rows[0], name, num) {
        assert(names(rows[0], name, num) && rows[0].id == rows[0].id);
    } else {
        let rest = rows.drop_first();
        lemma_resolve(rest, name, num);
        match resolve(rest, name, num) {
            Some(id) => {
                let i = choose|i: int|
                    0 <= i < rest.len() && names(#[trigger] rest[i], name, num) && rest[i].id == id
                        && forall|j: int| 0 <= j < i ==> !names(#[trigger] rest[j], name, num);
                assert(rows[i + 1] == rest[i]);
                assert forall|j: int| 0 <= j < i + 1 implies !names(#[trigger] rows[j], name, num) by {
                    if j > 0 {
                        assert(rows[j] == rest[j - 1]);
                    }
                }
            },
            None => {
                assert forall|i: int| 0 <= i < rows.len() implies !names(#[trigger] rows[i], name, num) by {
                    if i > 0 {
                        assert(rows[i] == rest[i - 1]);
                    }
                }
            },
        }
    }
}

/// Rows before the first match do not change what a table resolves.
proof fn lemma_resolve_skip(rows: Seq<VersionModel>, name: Seq<char>, num: Seq<char>, n: int)
    requires
        0 <= n <= rows.len(),
        forall|j: int| 0 <= j < n ==> !names(#[trigger] rows[j], name, num),
    ensures
        resolve(rows, name, num) == resolve(rows.skip(n), name, num),
    decreases n,
{
    if n == 0 {
        assert(rows.skip(0) =~= rows);
    } else {
        let rest = rows.drop_first();
        assert forall|j: int| 0 <= j < n - 1 implies !names(#[trigger] rest[j], name, num) by {
            assert(rest[j] == rows[j + 1]);
        }
        lemma_resolve_skip(rest, name, num, n - 1);
        assert(rest.skip(n - 1) =~= rows.skip(n));
    }
}

/// In a well-formed table at most one row waits for the conditional update.
pub proof fn lemma_vacancies_bound(rows: Seq<VersionModel>, id: i32)
    requires
        well_formed(rows),
    ensures
        vacancies(rows, id) <= 1,
        vacancies(rows, id) == 1 <==> exists|i: int| 0 <= i < rows.len() && vacant(#[trigger] rows[i], id),
    decreases rows.len(),
{
    if rows.len() > 0 {
        let front = rows.drop_last();
        assert forall|i: int, j: int| 0 <= i < j < front.len() implies distinct(
            #[trigger] front[i],
            #[trigger] front[j],
        ) by {
            assert(front[i] == rows[i] && front[j] == rows[j]);
        }
        lemma_vacancies_bound(front, id);
        lemma_vacancies_none(front, id);
        if vacant(rows.last(), id) {
            assert forall|i: int| 0 <= i < front.len() implies !vacant(#[trigger] front[i], id) by {
                assert(front[i] == rows[i]);
                assert(distinct(rows[i], rows[rows.len() - 1]));
            }
            assert(vacant(rows[rows.len() - 1], id));
        } else if vacancies(front, id) == 1 {
            let i = choose|i: int| 0 <= i < front.len() && vacant(#[trigger] front[i], id);
            assert(rows[i] == front[i]);
        } else {
            assert forall|i: int| 0 <= i < rows.len() implies !vacant(#[trigger] rows[i], id) by {
                if i < front.len() {
                    assert(front[i] == rows[i]);
                }
            }
        }
    }
}

/// No row waits for the update exactly when the update changes nothing.
pub proof fn lemma_vacancies_none(rows: Seq<VersionModel>, id: i32)
    ensures
        vacancies(rows, id) == 0 <==> forall|i: int| 0 <= i < rows.len() ==> !vacant(#[trigger] rows[i], id),
        vacancies(rows, id) == 0 ==> filled(rows, id, None) == rows,
        forall|links: Option<Seq<char>>| vacancies(rows, id) == 0 ==> #[trigger] filled(rows, id, links) == rows,
    decreases rows.len(),
{
    if rows.len() > 0 {
        let front = rows.drop_last();
        lemma_vacancies_none(front, id);
        if vacancies(rows, id) == 0 {
            assert forall|i: int| 0 <= i < rows.len() implies !vacant(#[trigger] rows[i], id) by {
                if i < front.len() {
                    assert(front[i] == rows[i]);
                }
            }
        } else if vacancies(front, id) != 0 {
            let i = choose|i: int| 0 <= i < front.len() && vacant(#[trigger] front[i], id);
            assert(rows[i] == front[i]);
        }
    }
    if vacancies(rows, id) == 0 {
        assert forall|links: Option<Seq<char>>| #[trigger] filled(rows, id, links) == rows by {
            assert(filled(rows, id, links) =~= rows);
        }
    }
}

/// The conditional update keeps a table well formed.
pub proof fn lemma_filled_well_formed(rows: Seq<VersionModel>, id: i32, links: Option<Seq<char>>)
    requires
        well_formed(rows),
    ensures
        well_formed(filled(rows, id, links)),
{
    let after = filled(rows, id, links);
    assert forall|i: int, j: int| 0 <= i < j < after.len() implies distinct(
        #[trigger] after[i],
        #[trigger] after[j],
    ) by {
        assert(distinct(rows[i], rows[j]));
    }
}

/// A copy of an optional text.
fn copy_text(text: &Option<String>) -> (r: Option<String>)
    ensures
        r == *text,
{
    match text {
        Some(s) => Some(s.clone()),
        None => None,
    }
}

/// The table: rows in the order in which they were added, every two of them
/// distinct.
pub struct Versions {
    rows: Vec<Version>,
}

impl View for Versions {
    type V = Seq<VersionModel>;

    closed spec fn view(&self) -> Seq<VersionModel> {
        versions_of(self.rows@)
    }
}

impl Versions {
    #[verifier::type_invariant]
    spec fn valid(&self) -> bool {
        well_formed(versions_of(self.rows@))
    }

    /// The empty table.
    pub fn new() -> (r: Self)
        ensures
            r@ == Seq::<VersionModel>::empty(),
    {
        let r = Versions { rows: Vec::new() };
        assert(versions_of(r.rows@) =~= Seq::<VersionModel>::empty());
        r
    }

    /// The number of rows.
    pub fn len(&self) -> (n: usize)
        ensures
            n == self@.len(),
    {
        self.rows.len()
    }

    /// The rows, in table order.
    pub fn rows(&self) -> (r: &Vec<Version>)
        ensures
            versions_of(r@) == self@,
            well_formed(self@),
    {
        proof {
            use_type_invariant(self);
        }
        &self.rows
    }

    /// Adds a row at the end, unless the table holds a row with the same id or
    /// for the same version of the same package. Says whether it was added.
    pub fn insert(&mut self, version: Version) -> (added: bool)
        ensures
            added == forall|i: int| 0 <= i < old(self)@.len() ==> distinct(#[trigger] old(self)@[i], version@),
            added ==> final(self)@ == old(self)@.push(version@),
            !added ==> final(self)@ == old(self)@,
    {
        proof {
            use_type_invariant(&*self);
        }
        let mut i: usize = 0;
        while i < self.rows.len()
            invariant
                i <= self.rows.len(),
                self.rows == old(self).rows,
                forall|j: int| 0 <= j < i ==> distinct(#[trigger] versions_of(self.rows@)[j], version@),
            decreases self.rows.len() - i,
        {
            let row = &self.rows[i];
            if row.id == version.id || (row.crate_name == version.crate_name && row.num
                == version.num) {
                assert(!distinct(old(self)@[i as int], version@));
                return false;
            }
            i += 1;
        }
        let ghost before = versions_of(self.rows@);
        let mut rows: Vec<Version> = Vec::new();
        core::mem::swap(&mut self.rows, &mut rows);
        rows.push(version);
        assert(versions_of(rows@) =~= before.push(version@));
        self.rows = rows;
        true
    }

    /// Asks for the id of version `num` of package `name`. The table always
    /// answers: the id of the first matching row, or that there is none.
    pub fn lookup(&self, name: &String, num: &String) -> (r: Lookup)
        ensures
            r == match resolve(self@, name@, num@) {
                Some(id) => Lookup::Found(id),
                None => Lookup::Missing,
            },
    {
        let mut i: usize = 0;
        while i < self.rows.len()
            invariant
                i <= self.rows.len(),
                forall|j: int| 0 <= j < i ==> !names(#[trigger] versions_of(self.rows@)[j], name@, num@),
            decreases self.rows.len() - i,
        {
            let row = &self.rows[i];
            if row.crate_name == *name && row.num == *num {
                proof {
                    lemma_resolve_skip(self@, name@, num@, i as int);
                    assert(self@.skip(i as int)[0] == self@[i as int]);
                }
                return Lookup::Found(row.id);
            }
            i += 1;
        }
        proof {
            lemma_resolve_skip(self@, name@, num@, i as int);
        }
        Lookup::Missing
    }

    /// The conditional update: gives `links` to every row that has the id and
    /// no links yet, and returns how many rows it changed. A row that holds
    /// links already is never touched.
    pub fn fill_links(&mut self, id: i32, links: &Option<String>) -> (changed: usize)
        ensures
            final(self)@ == filled(old(self)@, id, text_of(*links)),
            changed == vacancies(old(self)@, id),
            changed <= 1,
    {
        proof {
            use_type_invariant(&*self);
            lemma_vacancies_bound(old(self)@, id);
            lemma_filled_well_formed(old(self)@, id, text_of(*links));
        }
        let ghost before = self@;
        let mut rows: Vec<Version> = Vec::new();
        core::mem::swap(&mut self.rows, &mut rows);
        let mut changed: usize = 0;
        let mut i: usize = 0;
        while i < rows.len()
            invariant
                i <= rows.len(),
                rows@.len() == before.len(),
                changed == vacancies(before.take(i as int), id),
                changed <= i,
                forall|j: int|
                    0 <= j < i ==> #[trigger] rows@[j]@ == filled(before, id, text_of(*links))[j],
                forall|j: int| i <= j < before.len() ==> #[trigger] rows@[j]@ == before[j],
            decreases rows.len() - i,
        {
            proof {
                assert(before.take(i as int + 1).drop_last() =~= before.take(i as int));
                assert(before.take(i as int + 1).last() == before[i as int]);
                assert(rows@[i as int]@ == before[i as int]);
            }
            if rows[i].id == id && rows[i].links.is_none() {
                rows[i].links = copy_text(links);
                changed += 1;
            }
            i += 1;
        }
        proof {
            assert(before.take(i as int) =~= before);
            assert(versions_of(rows@) =~= filled(before, id, text_of(*links)));
        }
        self.rows = rows;
        changed
    }

    /// A copy of the table.
    pub fn snapshot(&self) -> (r: Self)
        ensures
            r@ == self@,
    {
        proof {
            use_type_invariant(self);
        }
        let mut rows: Vec<Version> = Vec::new();
        let mut i: usize = 0;
        while i < self.rows.len()
            invariant
                i <= self.rows.len(),
                rows@.len() == i,
                forall|j: int| 0 <= j < i ==> #[trigger] rows@[j]@ == self.rows@[j]@,
            decreases self.rows.len() - i,
        {
            let row = &self.rows[i];
            rows.push(
                Version {
                    id: row.id,
                    crate_name: row.crate_name.clone(),
                    num: row.num.clone(),
                    links: copy_text(&row.links),
                },
            );
            i += 1;
        }
        assert(versions_of(rows@) =~= versions_of(self.rows@));
        Versions { rows }
    }
}

} // verus!
