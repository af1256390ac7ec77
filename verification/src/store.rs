//! The persistence backing store, modeled as an explicit value: one text
//! file per chunk coordinate.  The session logic reads and writes chunk
//! files through this value; a thin shell mirrors it onto a real data
//! directory, which keeps every decision about file contents verifiable.

use vstd::prelude::*;

verus! {

/// One stored chunk file: its coordinate and its text content.
pub struct StoredFile {
    pub x: i32,
    pub y: i32,
    pub group: u64,
    pub content: Vec<char>,
}

/// The data directory: at most one file per coordinate; lookups see the
/// first entry with a coordinate, and writes replace it.
pub struct FileStore {
    pub files: Vec<StoredFile>,
}

/// The content of the file for `(x, y, g)`, if one exists.
pub open spec fn find_file(fs: Seq<StoredFile>, x: int, y: int, g: int) -> Option<Seq<char>>
    decreases fs.len(),
{
    if fs.len() == 0 {
        None
    } else if fs[0].x as int == x && fs[0].y as int == y && fs[0].group as int == g {
        Some(fs[0].content@)
    } else {
        find_file(fs.drop_first(), x, y, g)
    }
}

/// Replacing the first file at a coordinate changes that coordinate's
/// content and nothing else.
proof fn lemma_find_update(fs: Seq<StoredFile>, i: int, f: StoredFile, tx: int, ty: int, tg: int)
    requires
        0 <= i < fs.len(),
        fs[i].x == f.x && fs[i].y == f.y && fs[i].group == f.group,
        forall|j: int|
            0 <= j < i ==> !((#[trigger] fs[j]).x == f.x && fs[j].y == f.y && fs[j].group
                == f.group),
    ensures
        find_file(fs.update(i, f), tx, ty, tg) == if tx == f.x as int && ty == f.y as int && tg
            == f.group as int {
            Some(f.content@)
        } else {
            find_file(fs, tx, ty, tg)
        },
    decreases i,
{
    let u = fs.update(i, f);
    if i == 0 {
        assert(u[0] == f);
        assert(u.drop_first() =~= fs.drop_first());
    } else {
        assert(u[0] == fs[0]);
        assert(u.drop_first() =~= fs.drop_first().update(i - 1, f));
        lemma_find_update(fs.drop_first(), i - 1, f, tx, ty, tg);
    }
}

/// Appending a file for a fresh coordinate adds that file and changes
/// nothing else.
proof fn lemma_find_push(fs: Seq<StoredFile>, f: StoredFile, tx: int, ty: int, tg: int)
    ensures
        find_file(fs.push(f), tx, ty, tg) == if find_file(fs, tx, ty, tg) is Some {
            find_file(fs, tx, ty, tg)
        } else if tx == f.x as int && ty == f.y as int && tg == f.group as int {
            Some(f.content@)
        } else {
            None
        },
    decreases fs.len(),
{
    if fs.len() == 0 {
        assert(fs.push(f)[0] == f);
        assert(fs.push(f).drop_first() =~= Seq::<StoredFile>::empty());
        assert(find_file(fs, tx, ty, tg) is None);
        assert(find_file(Seq::<StoredFile>::empty(), tx, ty, tg) is None);
    } else {
        assert(fs.push(f)[0] == fs[0]);
        assert(fs.push(f).drop_first() =~= fs.drop_first().push(f));
        lemma_find_push(fs.drop_first(), f, tx, ty, tg);
    }
}

impl FileStore {
    /// An empty data directory.
    pub fn new() -> (r: FileStore)
        ensures
            r.files@.len() == 0,
            forall|tx: int, ty: int, tg: int| #[trigger] find_file(r.files@, tx, ty, tg) is None,
    {
        FileStore { files: Vec::new() }
    }

    /// Index of the first file at `(x, y, group)`.
    fn find_index(&self, x: i32, y: i32, group: u64) -> (r: Option<usize>)
        ensures
            match r {
                Some(i) => i < self.files@.len() && self.files@[i as int].x == x
                    && self.files@[i as int].y == y && self.files@[i as int].group == group
                    && find_file(self.files@, x as int, y as int, group as int) == Some(
                    self.files@[i as int].content@,
                ) && (forall|j: int|
                    0 <= j < i ==> !((#[trigger] self.files@[j]).x == x && self.files@[j].y == y
                        && self.files@[j].group == group)),
                None => find_file(self.files@, x as int, y as int, group as int) is None,
            },
    {
        let mut i: usize = 0;
        proof {
            assert(self.files@.skip(0) =~= self.files@);
        }
        while i < self.files.len()
            invariant
                0 <= i <= self.files@.len(),
                find_file(self.files@, x as int, y as int, group as int) == find_file(
                    self.files@.skip(i as int),
                    x as int,
                    y as int,
                    group as int,
                ),
                forall|j: int|
                    0 <= j < i ==> !((#[trigger] self.files@[j]).x == x && self.files@[j].y == y
                        && self.files@[j].group == group),
            decreases self.files@.len() - i,
        {
            let f = &self.files[i];
            proof {
                assert(self.files@.skip(i as int)[0] == self.files@[i as int]);
            }
            if f.x == x && f.y == y && f.group == group {
                return Some(i);
            }
            proof {
                assert(self.files@.skip(i as int).drop_first() =~= self.files@.skip(i as int + 1));
            }
            i = i + 1;
        }
        proof {
            assert(self.files@.skip(self.files@.len() as int) =~= Seq::<StoredFile>::empty());
        }
        None
    }

    /// Whether a file exists for `(x, y, group)`.
    pub fn exists_file(&self, x: i32, y: i32, group: u64) -> (r: bool)
        ensures
            r == (find_file(self.files@, x as int, y as int, group as int) is Some),
    {
        self.find_index(x, y, group).is_some()
    }

    /// The content of the file for `(x, y, group)`, if one exists.
    pub fn read_file(&self, x: i32, y: i32, group: u64) -> (r: Option<&Vec<char>>)
        ensures
            match r {
                Some(c) => find_file(self.files@, x as int, y as int, group as int) == Some(c@),
                None => find_file(self.files@, x as int, y as int, group as int) is None,
            },
    {
        match self.find_index(x, y, group) {
            Some(i) => Some(&self.files[i].content),
            None => None,
        }
    }

    /// Writes `content` as the file for `(x, y, group)`, replacing any
    /// previous content; every other coordinate's file is untouched.
    pub fn write_file(&mut self, x: i32, y: i32, group: u64, content: Vec<char>)
        ensures
            forall|tx: int, ty: int, tg: int|
                #[trigger] find_file(final(self).files@, tx, ty, tg) == if tx == x as int && ty
                    == y as int && tg == group as int {
                    Some(content@)
                } else {
                    find_file(old(self).files@, tx, ty, tg)
                },
    {
        let ghost content_view = content@;
        match self.find_index(x, y, group) {
            Some(i) => {
                let ghost fs0 = self.files@;
                let f = StoredFile { x, y, group, content };
                proof {
                    assert(fs0[i as int].x == f.x && fs0[i as int].y == f.y && fs0[i as int].group
                        == f.group);
                }
                self.files[i] = f;
                proof {
                    assert(self.files@ =~= fs0.update(i as int, f));
                    assert forall|tx: int, ty: int, tg: int|
                        #[trigger] find_file(self.files@, tx, ty, tg) == if tx == x as int && ty
                            == y as int && tg == group as int {
                            Some(content_view)
                        } else {
                            find_file(fs0, tx, ty, tg)
                        } by {
                        lemma_find_update(fs0, i as int, f, tx, ty, tg);
                    }
                }
            },
            None => {
                let ghost fs0 = self.files@;
                let f = StoredFile { x, y, group, content };
                self.files.push(f);
                proof {
                    assert forall|tx: int, ty: int, tg: int|
                        #[trigger] find_file(self.files@, tx, ty, tg) == if tx == x as int && ty
                            == y as int && tg == group as int {
                            Some(content_view)
                        } else {
                            find_file(fs0, tx, ty, tg)
                        } by {
                        lemma_find_push(fs0, f, tx, ty, tg);
                    }
                }
            },
        }
    }
}

} // verus!
