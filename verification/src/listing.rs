//! One level of a tree that is given as a flat list of paths.
//!
//! Every path of the list either lies outside the level, or names a directory or a file
//! in it. A level shows each name once: as a directory where any path makes it one,
//! otherwise as a file.

use vstd::prelude::*;

use crate::order::{
    lemma_sorted_strictly, lemma_stable_sort_same_rows, name_before, name_order_is_irreflexive,
    name_order_is_total, name_order_is_transitive, sort_by_name, Named,
};
use crate::rpc::{rows_of, RemoteFileEntry, Row};
use crate::text::{chars_of, same_text};

verus! {

/// What one path of the list is to a level.
pub enum Child {
    /// It lies outside.
    Outside,
    /// It makes a directory of that name.
    Dir(Seq<char>),
    /// It is a file of that name and size.
    File(Seq<char>, u64),
}

/// Whether some path makes `name` a directory.
pub open spec fn has_dir(children: Seq<Child>, name: Seq<char>) -> bool {
    exists|i: int| 0 <= i < children.len() && #[trigger] children[i] == Child::Dir(name)
}

/// Whether some path is a file `name`.
pub open spec fn has_file(children: Seq<Child>, name: Seq<char>) -> bool {
    exists|i: int|
        0 <= i < children.len() && (#[trigger] children[i]) is File && children[i]->File_0 == name
}

/// Whether the level shows `name`.
pub open spec fn shows(children: Seq<Child>, name: Seq<char>) -> bool {
    has_dir(children, name) || has_file(children, name)
}

/// The size of the first file `name`.
pub open spec fn first_size(children: Seq<Child>, name: Seq<char>) -> u64
    decreases children.len(),
{
    if children.len() == 0 {
        0
    } else if has_file(children.drop_last(), name) {
        first_size(children.drop_last(), name)
    } else {
        match children.last() {
            Child::File(n, size) if n == name => size,
            _ => 0,
        }
    }
}

/// The size of the last file `name`.
pub open spec fn last_size(children: Seq<Child>, name: Seq<char>) -> u64
    decreases children.len(),
{
    if children.len() == 0 {
        0
    } else {
        match children.last() {
            Child::File(n, size) if n == name => size,
            _ => last_size(children.drop_last(), name),
        }
    }
}

/// The rows that a level shows: each name once, in the order of the names, with the row
/// that `row` gives for it.
pub open spec fn is_listing(
    rows: Seq<Row>,
    children: Seq<Child>,
    row: spec_fn(Seq<char>) -> Row,
) -> bool {
    &&& forall|i: int, j: int|
        0 <= i < j < rows.len() ==> name_before((#[trigger] rows[i]).name, (#[trigger] rows[j]).name)
    &&& forall|i: int|
        0 <= i < rows.len() ==> shows(children, (#[trigger] rows[i]).name) && rows[i] == row(
            rows[i].name,
        )
    &&& forall|name: Seq<char>| #[trigger]
        shows(children, name) ==> exists|i: int| 0 <= i < rows.len() && (#[trigger] rows[i]).name == name
}

/// A level has one listing only: two that agree on what is shown are equal.
pub proof fn a_level_has_one_listing(
    a: Seq<Row>,
    b: Seq<Row>,
    children: Seq<Child>,
    row: spec_fn(Seq<char>) -> Row,
)
    requires
        is_listing(a, children, row),
        is_listing(b, children, row),
    ensures
        a == b,
{
    lemma_listing_prefix(a, b, children, row, a.len() as int);
    lemma_listing_prefix(b, a, children, row, b.len() as int);
    lemma_no_room(a, b, children, row);
    lemma_no_room(b, a, children, row);
    assert(a =~= b);
}

/// A listing that is a proper prefix of another would leave a name out.
proof fn lemma_no_room(
    a: Seq<Row>,
    b: Seq<Row>,
    children: Seq<Child>,
    row: spec_fn(Seq<char>) -> Row,
)
    requires
        is_listing(a, children, row),
        is_listing(b, children, row),
        forall|k: int| 0 <= k < a.len() && k < b.len() ==> a[k] == b[k],
    ensures
        a.len() >= b.len(),
{
    if a.len() < b.len() {
        let extra = b[a.len() as int];
        assert(shows(children, extra.name));
        let i = choose|i: int| 0 <= i < a.len() && (#[trigger] a[i]).name == extra.name;
        assert(a[i] == b[i]);
        assert(name_before(b[i].name, extra.name));
        name_order_is_irreflexive(extra.name);
    }
}

/// Listings of one level agree row by row as far as both go.
proof fn lemma_listing_prefix(
    a: Seq<Row>,
    b: Seq<Row>,
    children: Seq<Child>,
    row: spec_fn(Seq<char>) -> Row,
    n: int,
)
    requires
        is_listing(a, children, row),
        is_listing(b, children, row),
        0 <= n <= a.len(),
    ensures
        forall|k: int| 0 <= k < n && k < b.len() ==> a[k] == b[k],
    decreases n,
{
    if n > 0 {
        lemma_listing_prefix(a, b, children, row, n - 1);
        let k = n - 1;
        if k < b.len() {
            lemma_not_later(a, b, children, row, k);
            lemma_not_later(b, a, children, row, k);
            name_order_is_total(a[k].name, b[k].name);
            assert(a[k] == row(a[k].name));
            assert(b[k] == row(b[k].name));
        }
    }
}

/// Where two listings agree before `k`, the row at `k` of the one is not after that of the
/// other.
proof fn lemma_not_later(
    a: Seq<Row>,
    b: Seq<Row>,
    children: Seq<Child>,
    row: spec_fn(Seq<char>) -> Row,
    k: int,
)
    requires
        is_listing(a, children, row),
        is_listing(b, children, row),
        0 <= k < a.len(),
        k < b.len(),
        forall|i: int| 0 <= i < k ==> a[i] == b[i],
    ensures
        !name_before(b[k].name, a[k].name),
{
    if name_before(b[k].name, a[k].name) {
        assert(shows(children, b[k].name));
        let i = choose|i: int| 0 <= i < a.len() && (#[trigger] a[i]).name == b[k].name;
        if i < k {
            assert(a[i] == b[i]);
            assert(name_before(b[i].name, b[k].name));
            name_order_is_irreflexive(b[k].name);
        } else {
            if i > k {
                assert(name_before(a[k].name, a[i].name));
                name_order_is_transitive(b[k].name, a[k].name, b[k].name);
            }
            name_order_is_irreflexive(b[k].name);
        }
    }
}

proof fn lemma_dir_push(children: Seq<Child>, child: Child, name: Seq<char>)
    ensures
        has_dir(children.push(child), name) <==> has_dir(children, name) || child == Child::Dir(
            name,
        ),
{
    let more = children.push(child);
    if has_dir(children, name) {
        let i = choose|i: int| 0 <= i < children.len() && #[trigger] children[i] == Child::Dir(name);
        assert(more[i] == Child::Dir(name));
    }
    if child == Child::Dir(name) {
        assert(more[children.len() as int] == Child::Dir(name));
    }
    if has_dir(more, name) {
        let i = choose|i: int| 0 <= i < more.len() && #[trigger] more[i] == Child::Dir(name);
        if i < children.len() {
            assert(children[i] == Child::Dir(name));
        }
    }
}

proof fn lemma_file_push(children: Seq<Child>, child: Child, name: Seq<char>)
    ensures
        has_file(children.push(child), name) <==> has_file(children, name) || (child is File
            && child->File_0 == name),
{
    let more = children.push(child);
    if has_file(children, name) {
        let i = choose|i: int|
            0 <= i < children.len() && (#[trigger] children[i]) is File && children[i]->File_0
                == name;
        assert(more[i] is File && more[i]->File_0 == name);
    }
    if child is File && child->File_0 == name {
        assert(more[children.len() as int] is File);
    }
    if has_file(more, name) {
        let i = choose|i: int|
            0 <= i < more.len() && (#[trigger] more[i]) is File && more[i]->File_0 == name;
        if i < children.len() {
            assert(children[i] is File && children[i]->File_0 == name);
        }
    }
}

/// Whether `names` holds `name`.
pub open spec fn holds(names: Seq<String>, name: Seq<char>) -> bool {
    exists|i: int| 0 <= i < names.len() && (#[trigger] names[i])@ == name
}

/// Whether no name stands twice.
pub open spec fn all_different(names: Seq<String>) -> bool {
    forall|i: int, j: int| 0 <= i < j < names.len() ==> (#[trigger] names[i])@ != (#[trigger] names[j])@
}

/// The place of a name.
pub(crate) fn position(names: &Vec<String>, name: &str) -> (at: Option<usize>)
    ensures
        match at {
            Some(i) => i < names@.len() && names@[i as int]@ == name@,
            None => !holds(names@, name@),
        },
{
    let mut i: usize = 0;
    while i < names.len()
        invariant
            i <= names@.len(),
            forall|j: int| 0 <= j < i ==> (#[trigger] names@[j])@ != name@,
        decreases names@.len() - i,
    {
        if same_text(names[i].as_str(), name) {
            return Some(i);
        }
        i += 1;
    }
    None
}

/// The directories and files found so far, and what each path looked at was.
pub(crate) struct Level {
    pub dirs: Vec<String>,
    pub files: Vec<String>,
    pub sizes: Vec<u64>,
    /// Whether the first of several files of one name gives the size, or the last.
    pub keep_first: bool,
    pub children: Ghost<Seq<Child>>,
}

impl Level {
    pub(crate) open spec fn size_of(self, name: Seq<char>) -> u64 {
        if self.keep_first {
            first_size(self.children@, name)
        } else {
            last_size(self.children@, name)
        }
    }

    pub(crate) open spec fn wf(self) -> bool {
        &&& all_different(self.dirs@)
        &&& all_different(self.files@)
        &&& self.files@.len() == self.sizes@.len()
        &&& forall|name: Seq<char>| #[trigger]
            holds(self.dirs@, name) <==> has_dir(self.children@, name)
        &&& forall|name: Seq<char>| #[trigger]
            holds(self.files@, name) <==> has_file(self.children@, name)
        &&& forall|i: int|
            0 <= i < self.files@.len() ==> #[trigger] self.sizes@[i] == self.size_of(
                self.files@[i]@,
            )
    }

    pub(crate) fn new(keep_first: bool) -> (level: Level)
        ensures
            level.wf(),
            level.keep_first == keep_first,
            level.children@ == Seq::<Child>::empty(),
    {
        Level {
            dirs: Vec::new(),
            files: Vec::new(),
            sizes: Vec::new(),
            keep_first,
            children: Ghost(Seq::empty()),
        }
    }

    /// Notes a path that lies outside the level.
    pub(crate) fn pass(&mut self)
        requires
            old(self).wf(),
        ensures
            final(self).wf(),
            final(self).keep_first == old(self).keep_first,
            final(self).children@ == old(self).children@.push(Child::Outside),
    {
        let ghost before = self.children@;
        self.children = Ghost(before.push(Child::Outside));
        proof {
            self.lemma_sizes_kept(before, Child::Outside);
            assert forall|name: Seq<char>| #[trigger]
                holds(self.dirs@, name) <==> has_dir(self.children@, name) by {
                lemma_dir_push(before, Child::Outside, name);
            }
            assert forall|name: Seq<char>| #[trigger]
                holds(self.files@, name) <==> has_file(self.children@, name) by {
                lemma_file_push(before, Child::Outside, name);
            }
        }
    }

    /// Notes a path that makes a directory.
    pub(crate) fn add_dir(&mut self, name: String)
        requires
            old(self).wf(),
        ensures
            final(self).wf(),
            final(self).keep_first == old(self).keep_first,
            final(self).children@ == old(self).children@.push(Child::Dir(name@)),
    {
        let ghost before = self.children@;
        let ghost child = Child::Dir(name@);
        let ghost dirs = self.dirs@;
        let known = position(&self.dirs, name.as_str());
        if known.is_none() {
            self.dirs.push(name);
        }
        self.children = Ghost(before.push(child));
        proof {
            self.lemma_sizes_kept(before, child);
            assert forall|other: Seq<char>| #[trigger]
                holds(self.dirs@, other) <==> has_dir(self.children@, other) by {
                lemma_dir_push(before, child, other);
                lemma_holds_push(dirs, name, other);
                if known is Some {
                    assert(holds(dirs, name@));
                }
                assert(holds(dirs, other) <==> has_dir(before, other));
            }
            assert forall|other: Seq<char>| #[trigger]
                holds(self.files@, other) <==> has_file(self.children@, other) by {
                lemma_file_push(before, child, other);
            }
        }
    }

    /// Notes a path that is a file.
    pub(crate) fn add_file(&mut self, name: String, size: u64)
        requires
            old(self).wf(),
        ensures
            final(self).wf(),
            final(self).keep_first == old(self).keep_first,
            final(self).children@ == old(self).children@.push(Child::File(name@, size)),
    {
        let ghost before = self.children@;
        let ghost child = Child::File(name@, size);
        let ghost files = self.files@;
        let ghost sizes = self.sizes@;
        let known = position(&self.files, name.as_str());
        match known {
            Some(i) => {
                assert(holds(files, name@));
                if !self.keep_first {
                    self.sizes.set(i, size);
                }
            },
            None => {
                self.files.push(name);
                self.sizes.push(size);
            },
        }
        self.children = Ghost(before.push(child));
        proof {
            assert(self.children@.drop_last() =~= before);
            assert forall|other: Seq<char>| #[trigger]
                holds(self.files@, other) <==> has_file(self.children@, other) by {
                lemma_file_push(before, child, other);
                lemma_holds_push(files, name, other);
                assert(holds(files, other) <==> has_file(before, other));
            }
            assert forall|other: Seq<char>| #[trigger]
                holds(self.dirs@, other) <==> has_dir(self.children@, other) by {
                lemma_dir_push(before, child, other);
            }
            assert forall|k: int| 0 <= k < self.files@.len() implies #[trigger] self.sizes@[k]
                == self.size_of(self.files@[k]@) by {
                let other = self.files@[k]@;
                if k < files.len() {
                    assert(sizes[k] == old(self).size_of(files[k]@));
                    assert(holds(files, other));
                    assert(has_file(before, other));
                    if other == name@ {
                        match known {
                            Some(i) => {
                                if i != k {
                                    assert(files[i as int]@ == files[k]@);
                                }
                            },
                            None => {},
                        }
                    }
                } else {
                    assert(other == name@);
                    assert(!has_file(before, name@));
                }
            }
        }
    }

    /// A child that is no file leaves the sizes as they were.
    proof fn lemma_sizes_kept(self, before: Seq<Child>, child: Child)
        requires
            !(child is File),
            self.children@ == before.push(child),
            self.files@.len() == self.sizes@.len(),
            forall|name: Seq<char>| #[trigger] holds(self.files@, name) <==> has_file(before, name),
            forall|i: int|
                0 <= i < self.files@.len() ==> #[trigger] self.sizes@[i] == (if self.keep_first {
                    first_size(before, self.files@[i]@)
                } else {
                    last_size(before, self.files@[i]@)
                }),
        ensures
            forall|i: int|
                0 <= i < self.files@.len() ==> #[trigger] self.sizes@[i] == self.size_of(
                    self.files@[i]@,
                ),
    {
        assert(self.children@.drop_last() =~= before);
        assert forall|i: int| 0 <= i < self.files@.len() implies #[trigger] self.sizes@[i]
            == self.size_of(self.files@[i]@) by {
            assert(holds(self.files@, self.files@[i]@));
        }
    }
}

proof fn lemma_holds_push(names: Seq<String>, name: String, other: Seq<char>)
    ensures
        holds(names.push(name), other) <==> holds(names, other) || name@ == other,
{
    let more = names.push(name);
    if holds(names, other) {
        let i = choose|i: int| 0 <= i < names.len() && (#[trigger] names[i])@ == other;
        assert(more[i]@ == other);
    }
    if name@ == other {
        assert(more[names.len() as int]@ == other);
    }
    if holds(more, other) {
        let i = choose|i: int| 0 <= i < more.len() && (#[trigger] more[i])@ == other;
        if i < names.len() {
            assert(names[i]@ == other);
        }
    }
}

/// Rows, in any order, that show each name of a level once.
pub open spec fn covers(
    rows: Seq<RemoteFileEntry>,
    children: Seq<Child>,
    row: spec_fn(Seq<char>) -> Row,
) -> bool {
    &&& forall|i: int, j: int|
        0 <= i < j < rows.len() ==> (#[trigger] rows[i]).name@ != (#[trigger] rows[j]).name@
    &&& forall|i: int|
        0 <= i < rows.len() ==> shows(children, (#[trigger] rows[i]).name@) && rows[i]@ == row(
            rows[i].name@,
        )
    &&& forall|name: Seq<char>| #[trigger]
        shows(children, name) ==> exists|i: int|
            0 <= i < rows.len() && (#[trigger] rows[i]).name@ == name
}

/// Rows that cover a level, put in the order of their names, are its listing.
pub(crate) fn in_order(
    rows: Vec<RemoteFileEntry>,
    children: Ghost<Seq<Child>>,
    row: Ghost<spec_fn(Seq<char>) -> Row>,
) -> (sorted: Vec<RemoteFileEntry>)
    requires
        covers(rows@, children@, row@),
    ensures
        is_listing(rows_of(sorted@), children@, row@),
{
    let sorted = sort_by_name(rows);
    proof {
        let shown = rows_of(sorted@);
        assert forall|a: int, b: int| 0 <= a < b < rows@.len() implies (#[trigger] rows@[a]).key()
            != (#[trigger] rows@[b]).key() by {
            assert(rows@[a].name@ != rows@[b].name@);
        }
        lemma_sorted_strictly(sorted@, rows@);
        assert forall|i: int, j: int| 0 <= i < j < shown.len() implies name_before(
            (#[trigger] shown[i]).name,
            (#[trigger] shown[j]).name,
        ) by {
            assert(name_before(sorted@[i].key(), sorted@[j].key()));
        }
        assert forall|i: int| 0 <= i < shown.len() implies shows(
            children@,
            (#[trigger] shown[i]).name,
        ) && shown[i] == (row@)(shown[i].name) by {
            lemma_stable_sort_same_rows(sorted@, rows@, sorted@[i]);
            assert(sorted@.contains(sorted@[i]));
            let k = choose|k: int| 0 <= k < rows@.len() && rows@[k] == sorted@[i];
            assert(shows(children@, rows@[k].name@));
        }
        assert forall|name: Seq<char>| #[trigger] shows(children@, name) implies exists|i: int|
            0 <= i < shown.len() && (#[trigger] shown[i]).name == name by {
            let k = choose|k: int| 0 <= k < rows@.len() && (#[trigger] rows@[k]).name@ == name;
            assert(rows@.contains(rows@[k]));
            lemma_stable_sort_same_rows(sorted@, rows@, rows@[k]);
            let i = choose|i: int| 0 <= i < sorted@.len() && sorted@[i] == rows@[k];
            assert(shown[i].name == name);
        }
    }
    sorted
}

/// How the names of a level become rows.
pub(crate) trait RowMaker {
    /// The row of a directory.
    spec fn dir_row(&self, name: Seq<char>) -> Row;

    /// The row of a file.
    spec fn file_row(&self, name: Seq<char>, size: u64) -> Row;

    fn make_dir(&self, name: String) -> (row: RemoteFileEntry)
        ensures
            row@ == self.dir_row(name@),
            row.name@ == name@,
    ;

    fn make_file(&self, name: String, size: u64) -> (row: RemoteFileEntry)
        ensures
            row@ == self.file_row(name@, size),
            row.name@ == name@,
    ;
}

impl Level {
    /// The row that a name gets: that of a directory where there is one of that name.
    pub(crate) open spec fn row_by<M: RowMaker>(self, maker: M) -> spec_fn(Seq<char>) -> Row {
        |name: Seq<char>|
            if has_dir(self.children@, name) {
                maker.dir_row(name)
            } else {
                maker.file_row(name, self.size_of(name))
            }
    }

    /// The rows of the directories, each once.
    fn dir_rows<M: RowMaker>(&self, maker: &M) -> (rows: Vec<RemoteFileEntry>)
        requires
            self.wf(),
        ensures
            rows@.len() == self.dirs@.len(),
            forall|k: int|
                0 <= k < rows@.len() ==> (#[trigger] rows@[k]).name@ == self.dirs@[k]@ && rows@[k]@
                    == maker.dir_row(self.dirs@[k]@),
    {
        let mut rows: Vec<RemoteFileEntry> = Vec::new();
        let mut i: usize = 0;
        while i < self.dirs.len()
            invariant
                i <= self.dirs@.len(),
                rows@.len() == i,
                forall|k: int|
                    0 <= k < i ==> (#[trigger] rows@[k]).name@ == self.dirs@[k]@ && rows@[k]@
                        == maker.dir_row(self.dirs@[k]@),
            decreases self.dirs@.len() - i,
        {
            rows.push(maker.make_dir(self.dirs[i].clone()));
            i += 1;
        }
        rows
    }

    /// The listing of a level whose paths have all been looked at.
    pub(crate) fn rows<M: RowMaker>(&self, maker: &M) -> (rows: Vec<RemoteFileEntry>)
        requires
            self.wf(),
        ensures
            is_listing(rows_of(rows@), self.children@, self.row_by(*maker)),
    {
        let ghost children = self.children@;
        let ghost row = self.row_by(*maker);
        let mut rows = self.dir_rows(maker);
        proof {
            assert forall|k: int| 0 <= k < rows@.len() implies has_dir(
                children,
                (#[trigger] rows@[k]).name@,
            ) by {
                assert(holds(self.dirs@, self.dirs@[k]@));
            }
            assert forall|name: Seq<char>| #[trigger] has_dir(children, name) implies has_row(
                rows@,
                name,
            ) by {
                assert(holds(self.dirs@, name));
                let k = choose|k: int|
                    0 <= k < self.dirs@.len() && (#[trigger] self.dirs@[k])@ == name;
                assert(rows@[k].name@ == name);
            }
            assert forall|a: int, b: int| 0 <= a < b < rows@.len() implies (
            #[trigger] rows@[a]).name@ != (#[trigger] rows@[b]).name@ by {
                assert(self.dirs@[a]@ != self.dirs@[b]@);
            }
        }
        let mut j: usize = 0;
        while j < self.files.len()
            invariant
                j <= self.files@.len(),
                self.wf(),
                children == self.children@,
                row == self.row_by(*maker),
                forall|a: int, b: int|
                    0 <= a < b < rows@.len() ==> (#[trigger] rows@[a]).name@ != (
                    #[trigger] rows@[b]).name@,
                forall|k: int|
                    0 <= k < rows@.len() ==> shows(children, (#[trigger] rows@[k]).name@)
                        && rows@[k]@ == row(rows@[k].name@) && (has_dir(children, rows@[k].name@)
                        || holds(self.files@.take(j as int), rows@[k].name@)),
                forall|name: Seq<char>| #[trigger]
                    has_dir(children, name) ==> has_row(rows@, name),
                forall|f: int| 0 <= f < j ==> has_row(rows@, (#[trigger] self.files@[f])@),
            decreases self.files@.len() - j,
        {
            let ghost before = rows@;
            let ghost name = self.files@[j as int]@;
            proof {
                assert(holds(self.files@, name));
                assert(self.files@.take(j + 1) =~= self.files@.take(j as int).push(
                    self.files@[j as int],
                ));
                assert forall|other: Seq<char>| #[trigger]
                    holds(self.files@.take(j + 1), other) == (holds(
                        self.files@.take(j as int),
                        other,
                    ) || other == name) by {
                    lemma_holds_push(self.files@.take(j as int), self.files@[j as int], other);
                }
            }
            if position(&self.dirs, self.files[j].as_str()).is_none() {
                let added = maker.make_file(self.files[j].clone(), self.sizes[j]);
                rows.push(added);
                proof {
                    assert(!holds(self.dirs@, name));
                    assert(added@ == row(name));
                    assert forall|other: Seq<char>| #[trigger] has_row(rows@, other) == (has_row(
                        before,
                        other,
                    ) || other == name) by {
                        lemma_row_push(before, added, other);
                    }
                    assert forall|a: int, b: int| 0 <= a < b < rows@.len() implies (
                    #[trigger] rows@[a]).name@ != (#[trigger] rows@[b]).name@ by {
                        assert(rows@[a] == before[a]);
                        if b < before.len() {
                            assert(rows@[b] == before[b]);
                        } else if before[a].name@ == name {
                            let f = choose|f: int|
                                0 <= f < self.files@.take(j as int).len() && (
                                #[trigger] self.files@.take(j as int)[f])@ == name;
                            assert(self.files@[f]@ != self.files@[j as int]@);
                        }
                    }
                    assert forall|k: int| 0 <= k < rows@.len() implies shows(
                        children,
                        (#[trigger] rows@[k]).name@,
                    ) && rows@[k]@ == row(rows@[k].name@) && (has_dir(children, rows@[k].name@)
                        || holds(self.files@.take(j + 1), rows@[k].name@)) by {
                        if k < before.len() {
                            assert(rows@[k] == before[k]);
                        }
                    }
                }
            } else {
                assert(holds(self.dirs@, name));
                assert(has_dir(children, name));
            }
            j += 1;
        }
        proof {
            assert forall|name: Seq<char>| #[trigger] shows(children, name) implies exists|k: int|
                0 <= k < rows@.len() && (#[trigger] rows@[k]).name@ == name by {
                if !has_dir(children, name) {
                    assert(holds(self.files@, name));
                }
                assert(has_row(rows@, name));
            }
            assert(covers(rows@, children, row));
        }
        in_order(rows, Ghost(children), Ghost(row))
    }
}

/// Whether a row of that name stands among `rows`.
spec fn has_row(rows: Seq<RemoteFileEntry>, name: Seq<char>) -> bool {
    exists|k: int| 0 <= k < rows.len() && (#[trigger] rows[k]).name@ == name
}

proof fn lemma_row_push(rows: Seq<RemoteFileEntry>, row: RemoteFileEntry, name: Seq<char>)
    ensures
        has_row(rows.push(row), name) <==> has_row(rows, name) || row.name@ == name,
{
    let more = rows.push(row);
    if has_row(rows, name) {
        let k = choose|k: int| 0 <= k < rows.len() && (#[trigger] rows[k]).name@ == name;
        assert(more[k].name@ == name);
    }
    if row.name@ == name {
        assert(more[rows.len() as int].name@ == name);
    }
    if has_row(more, name) {
        let k = choose|k: int| 0 <= k < more.len() && (#[trigger] more[k]).name@ == name;
        if k < rows.len() {
            assert(rows[k].name@ == name);
        }
    }
}

/// What the paths below a directory begin with.
pub open spec fn level_prefix(dir: Seq<char>) -> Seq<char> {
    if dir.len() == 0 {
        dir
    } else {
        dir.push('/')
    }
}

/// What the paths below a directory begin with.
pub(crate) fn prefix_of(dir: &str) -> (prefix: Vec<char>)
    ensures
        prefix@ == level_prefix(dir@),
{
    let mut prefix = chars_of(dir);
    if prefix.len() > 0 {
        prefix.push('/');
    }
    prefix
}

} // verus!
