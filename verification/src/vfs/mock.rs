//! A file system in memory: paths, each of them a directory or a file with
//! its bytes.
//!
//! A path is a byte string; the root is the empty path, and the child
//! `name` of a directory `dir` is `dir/name`. The file system is a map from
//! the paths that exist to what stands there.

use crate::decimal::same_bytes;
use vstd::prelude::*;
use vstd::slice::slice_to_vec;

verus! {

/// Why the file system refuses a request.
#[derive(Debug, Clone, Copy, PartialEq, Eq, Structural)]
pub enum VfsError {
    /// Something stands at the path already.
    AlreadyExists,
    /// No file stands at the path.
    NotFound,
}

/// The path of the child `name` of the directory at `dir`.
pub open spec fn child_path(dir: Seq<u8>, name: Seq<u8>) -> Seq<u8> {
    if dir.len() == 0 {
        name
    } else {
        dir + seq![0x2Fu8] + name
    }
}

/// Whether `path` is the directory at `dir` or lies below it.
pub open spec fn under(dir: Seq<u8>, path: Seq<u8>) -> bool {
    ||| dir.len() == 0
    ||| path == dir
    ||| path.len() > dir.len() && path.take(dir.len() as int) == dir && path[dir.len() as int]
        == 0x2Fu8
}

/// The bytes of a file after `buf` was written at `pos`: what lay there is
/// overwritten, and a gap up to `pos` is filled with zeros.
pub open spec fn written_at(data: Seq<u8>, pos: int, buf: Seq<u8>) -> Seq<u8> {
    let end = pos + buf.len();
    Seq::new(
        (if end > data.len() {
            end
        } else {
            data.len() as int
        }) as nat,
        |i: int|
            if pos <= i < end {
                buf[i - pos]
            } else if i < data.len() {
                data[i]
            } else {
                0u8
            },
    )
}

struct MockEntry {
    path: Vec<u8>,
    data: Option<Vec<u8>>,
}

/// What stands at a path: nothing for a directory, the bytes for a file.
pub open spec fn content(data: Option<Vec<u8>>) -> Option<Seq<u8>> {
    match data {
        Some(bytes) => Some(bytes@),
        None => None,
    }
}

/// A file system in memory.
pub struct MockFilesystem {
    filesystem: Vec<MockEntry>,
}

/// A directory of the file system.
#[derive(Debug, PartialEq, Eq)]
pub struct MockDir {
    path: Vec<u8>,
}

/// An open file of the file system, with the place where it is read and
/// written next.
#[derive(Debug, PartialEq, Eq)]
pub struct MockFile {
    path: Vec<u8>,
    pos: usize,
}

impl View for MockFilesystem {
    type V = Map<Seq<u8>, Option<Seq<u8>>>;

    closed spec fn view(&self) -> Map<Seq<u8>, Option<Seq<u8>>> {
        Map::new(
            |path: Seq<u8>| self.has(path),
            |path: Seq<u8>| content(self.filesystem@[self.place(path)].data),
        )
    }
}

impl MockFilesystem {
    spec fn has(&self, path: Seq<u8>) -> bool {
        exists|i: int| 0 <= i < self.filesystem@.len() && (#[trigger] self.filesystem@[i]).path@ == path
    }

    spec fn place(&self, path: Seq<u8>) -> int {
        choose|i: int| 0 <= i < self.filesystem@.len() && (#[trigger] self.filesystem@[i]).path@ == path
    }

    /// No path stands in the file system twice.
    pub closed spec fn wf(&self) -> bool {
        forall|i: int, j: int|
            0 <= i < j < self.filesystem@.len() ==> (#[trigger] self.filesystem@[i]).path@
                != (#[trigger] self.filesystem@[j]).path@
    }

    proof fn lemma_place(&self, i: int)
        requires
            self.wf(),
            0 <= i < self.filesystem@.len(),
        ensures
            self.has(self.filesystem@[i].path@),
            self.place(self.filesystem@[i].path@) == i,
            self@.dom().contains(self.filesystem@[i].path@),
            self@[self.filesystem@[i].path@] == content(self.filesystem@[i].data),
    {
        let path = self.filesystem@[i].path@;
        let j = self.place(path);
        if j < i {
            assert(self.filesystem@[j].path@ != self.filesystem@[i].path@);
        } else if i < j {
            assert(self.filesystem@[i].path@ != self.filesystem@[j].path@);
        }
    }

    /// An empty file system.
    pub fn new() -> (fs: Self)
        ensures
            fs.wf(),
            fs@ == Map::<Seq<u8>, Option<Seq<u8>>>::empty(),
    {
        let fs = Self { filesystem: Vec::new() };
        assert(fs@ =~= Map::<Seq<u8>, Option<Seq<u8>>>::empty());
        fs
    }

    /// The root directory.
    pub fn root(&self) -> (dir: MockDir)
        ensures
            dir@ == Seq::<u8>::empty(),
    {
        MockDir { path: Vec::new() }
    }

    fn find(&self, path: &[u8]) -> (index: Option<usize>)
        requires
            self.wf(),
        ensures
            match index {
                Some(i) => i < self.filesystem@.len() && self.filesystem@[i as int].path@ == path@
                    && self@.dom().contains(path@) && self@[path@] == content(
                    self.filesystem@[i as int].data,
                ),
                None => !self@.dom().contains(path@),
            },
    {
        let mut i: usize = 0;
        while i < self.filesystem.len()
            invariant
                self.wf(),
                i <= self.filesystem@.len(),
                forall|k: int| 0 <= k < i ==> (#[trigger] self.filesystem@[k]).path@ != path@,
            decreases self.filesystem@.len() - i,
        {
            if same_bytes(self.filesystem[i].path.as_slice(), path) {
                proof {
                    self.lemma_place(i as int);
                }
                return Some(i);
            }
            i += 1;
        }
        None
    }

    fn insert(&mut self, path: Vec<u8>, data: Option<Vec<u8>>)
        requires
            old(self).wf(),
            !old(self)@.dom().contains(path@),
        ensures
            final(self).wf(),
            final(self)@ == old(self)@.insert(path@, content(data)),
    {
        let ghost before = *self;
        self.filesystem.push(MockEntry { path, data });
        proof {
            let after = *self;
            let n = before.filesystem@.len() as int;
            assert forall|i: int, j: int| 0 <= i < j < after.filesystem@.len() implies (#[trigger] after.filesystem@[i]).path@
                != (#[trigger] after.filesystem@[j]).path@ by {
                if j < n {
                    assert(before.filesystem@[i].path@ != before.filesystem@[j].path@);
                } else {
                    assert(before.filesystem@[i] == after.filesystem@[i]);
                    if before.filesystem@[i].path@ == path@ {
                        assert(before.has(path@));
                    }
                }
            }
            let expected = before@.insert(path@, content(data));
            assert forall|p: Seq<u8>| after@.dom().contains(p) <==> expected.dom().contains(p) by {
                if after.has(p) {
                    let i = after.place(p);
                    if i < n {
                        assert(before.filesystem@[i] == after.filesystem@[i]);
                        assert(before.has(p));
                    }
                }
                if before.has(p) {
                    let i = before.place(p);
                    assert(after.filesystem@[i] == before.filesystem@[i]);
                }
                if p == path@ {
                    assert(after.filesystem@[n].path@ == p);
                }
            }
            assert forall|p: Seq<u8>| after@.dom().contains(p) implies after@[p] == expected[p] by {
                let i = after.place(p);
                after.lemma_place(i);
                if i < n {
                    assert(before.filesystem@[i] == after.filesystem@[i]);
                    before.lemma_place(i);
                }
            }
            assert(after@ =~= expected);
        }
    }

    fn take_out(&mut self, index: usize) -> (entry: MockEntry)
        requires
            old(self).wf(),
            index < old(self).filesystem@.len(),
        ensures
            final(self).wf(),
            entry == old(self).filesystem@[index as int],
            final(self).filesystem@ == old(self).filesystem@.remove(index as int),
            final(self)@ == old(self)@.remove(entry.path@),
    {
        let ghost before = *self;
        let entry = self.filesystem.remove(index);
        proof {
            let after = *self;
            let at = index as int;
            assert forall|i: int, j: int| 0 <= i < j < after.filesystem@.len() implies (#[trigger] after.filesystem@[i]).path@
                != (#[trigger] after.filesystem@[j]).path@ by {
                let i0 = if i < at {
                    i
                } else {
                    i + 1
                };
                let j0 = if j < at {
                    j
                } else {
                    j + 1
                };
                assert(after.filesystem@[i] == before.filesystem@[i0]);
                assert(after.filesystem@[j] == before.filesystem@[j0]);
                assert(before.filesystem@[i0].path@ != before.filesystem@[j0].path@);
            }
            before.lemma_place(at);
            let expected = before@.remove(entry.path@);
            assert forall|p: Seq<u8>| after@.dom().contains(p) <==> expected.dom().contains(p) by {
                if after.has(p) {
                    let i = after.place(p);
                    let i0 = if i < at {
                        i
                    } else {
                        i + 1
                    };
                    assert(after.filesystem@[i] == before.filesystem@[i0]);
                    before.lemma_place(i0);
                }
                if before.has(p) && p != entry.path@ {
                    let i0 = before.place(p);
                    let i = if i0 < at {
                        i0
                    } else {
                        i0 - 1
                    };
                    assert(after.filesystem@[i] == before.filesystem@[i0]);
                }
            }
            assert forall|p: Seq<u8>| after@.dom().contains(p) implies after@[p] == expected[p] by {
                let i = after.place(p);
                after.lemma_place(i);
                let i0 = if i < at {
                    i
                } else {
                    i + 1
                };
                assert(after.filesystem@[i] == before.filesystem@[i0]);
                before.lemma_place(i0);
            }
            assert(after@ =~= expected);
        }
        entry
    }

    /// Puts `data` in place of what stands at `path`.
    fn replace(&mut self, index: usize, data: Option<Vec<u8>>)
        requires
            old(self).wf(),
            index < old(self).filesystem@.len(),
        ensures
            final(self).wf(),
            final(self)@ == old(self)@.insert(
                old(self).filesystem@[index as int].path@,
                content(data),
            ),
    {
        let ghost before = self@;
        let entry = self.take_out(index);
        let ghost path = entry.path@;
        self.insert(entry.path, data);
        assert(self@ =~= before.insert(path, content(data)));
    }
}

impl View for MockDir {
    type V = Seq<u8>;

    closed spec fn view(&self) -> Seq<u8> {
        self.path@
    }
}

impl MockDir {
    /// The path of the child `name`.
    fn child(&self, name: &[u8]) -> (path: Vec<u8>)
        ensures
            path@ == child_path(self@, name@),
    {
        let mut path = slice_to_vec(self.path.as_slice());
        if path.len() > 0 {
            path.push(0x2F);
        }
        path.extend_from_slice(name);
        assert(path@ =~= child_path(self@, name@));
        path
    }

    /// Makes the directory `name` in this directory, if nothing stands
    /// there.
    pub fn create_child_dir(&self, fs: &mut MockFilesystem, name: &[u8]) -> (r: Result<MockDir, VfsError>)
        requires
            old(fs).wf(),
        ensures
            final(fs).wf(),
            match r {
                Ok(dir) => dir@ == child_path(self@, name@) && !old(fs)@.dom().contains(dir@)
                    && final(fs)@ == old(fs)@.insert(dir@, None),
                Err(e) => e == VfsError::AlreadyExists && old(fs)@.dom().contains(
                    child_path(self@, name@),
                ) && final(fs)@ == old(fs)@,
            },
    {
        let path = self.child(name);
        if fs.find(path.as_slice()).is_some() {
            return Err(VfsError::AlreadyExists);
        }
        fs.insert(slice_to_vec(path.as_slice()), None);
        Ok(MockDir { path })
    }

    /// Makes the empty file `name` in this directory, if nothing stands
    /// there, and opens it.
    pub fn create_child_file(&self, fs: &mut MockFilesystem, name: &[u8]) -> (r: Result<
        MockFile,
        VfsError,
    >)
        requires
            old(fs).wf(),
        ensures
            final(fs).wf(),
            match r {
                Ok(file) => file.path() == child_path(self@, name@) && file.position() == 0
                    && !old(fs)@.dom().contains(file.path()) && final(fs)@ == old(fs)@.insert(
                    file.path(),
                    Some(Seq::empty()),
                ),
                Err(e) => e == VfsError::AlreadyExists && old(fs)@.dom().contains(
                    child_path(self@, name@),
                ) && final(fs)@ == old(fs)@,
            },
    {
        let path = self.child(name);
        if fs.find(path.as_slice()).is_some() {
            return Err(VfsError::AlreadyExists);
        }
        fs.insert(slice_to_vec(path.as_slice()), Some(Vec::new()));
        Ok(MockFile { path, pos: 0 })
    }

    /// Removes the file `name` of this directory.
    pub fn delete_file(&self, fs: &mut MockFilesystem, name: &[u8]) -> (r: Result<(), VfsError>)
        requires
            old(fs).wf(),
        ensures
            final(fs).wf(),
            match r {
                Ok(_) => old(fs)@.dom().contains(child_path(self@, name@)) && old(fs)@[child_path(
                    self@,
                    name@,
                )] is Some && final(fs)@ == old(fs)@.remove(child_path(self@, name@)),
                Err(e) => e == VfsError::NotFound && !(old(fs)@.dom().contains(
                    child_path(self@, name@),
                ) && old(fs)@[child_path(self@, name@)] is Some) && final(fs)@ == old(fs)@,
            },
    {
        let path = self.child(name);
        match fs.find(path.as_slice()) {
            Some(index) => {
                if fs.filesystem[index].data.is_none() {
                    return Err(VfsError::NotFound);
                }
                fs.take_out(index);
                Ok(())
            },
            None => Err(VfsError::NotFound),
        }
    }

    /// Removes this directory and all that lies below it.
    pub fn delete_self(self, fs: &mut MockFilesystem)
        requires
            old(fs).wf(),
        ensures
            final(fs).wf(),
            forall|path: Seq<u8>| #[trigger]
                final(fs)@.dom().contains(path) <==> old(fs)@.dom().contains(path) && !under(
                    self@,
                    path,
                ),
            forall|path: Seq<u8>| #[trigger]
                final(fs)@.dom().contains(path) ==> final(fs)@[path] == old(fs)@[path],
    {
        let mut i: usize = 0;
        while i < fs.filesystem.len()
            invariant
                fs.wf(),
                i <= fs.filesystem@.len(),
                forall|k: int| 0 <= k < i ==> !under(self@, (#[trigger] fs.filesystem@[k]).path@),
                forall|path: Seq<u8>| #[trigger]
                    fs@.dom().contains(path) ==> old(fs)@.dom().contains(path) && fs@[path] == old(fs)@[path],
                forall|path: Seq<u8>|
                    old(fs)@.dom().contains(path) && !under(self@, path) ==> #[trigger] fs@.dom().contains(
                        path,
                    ),
            decreases fs.filesystem@.len() - i,
        {
            if is_under(self.path.as_slice(), fs.filesystem[i].path.as_slice()) {
                fs.take_out(i);
            } else {
                i += 1;
            }
        }
        proof {
            assert forall|path: Seq<u8>| #[trigger] fs@.dom().contains(path) implies !under(
                self@,
                path,
            ) by {
                let k = fs.place(path);
                assert(fs.filesystem@[k].path@ == path);
            }
        }
    }

    /// Whether the directory `name` stands in this directory.
    pub fn child_dir_exists(&self, fs: &MockFilesystem, name: &[u8]) -> (exists: bool)
        requires
            fs.wf(),
        ensures
            exists == (fs@.dom().contains(child_path(self@, name@)) && fs@[child_path(
                self@,
                name@,
            )] is None),
    {
        let path = self.child(name);
        match fs.find(path.as_slice()) {
            Some(index) => fs.filesystem[index].data.is_none(),
            None => false,
        }
    }

    /// Whether the file `name` stands in this directory.
    pub fn child_file_exists(&self, fs: &MockFilesystem, name: &[u8]) -> (exists: bool)
        requires
            fs.wf(),
        ensures
            exists == (fs@.dom().contains(child_path(self@, name@)) && fs@[child_path(
                self@,
                name@,
            )] is Some),
    {
        let path = self.child(name);
        match fs.find(path.as_slice()) {
            Some(index) => fs.filesystem[index].data.is_some(),
            None => false,
        }
    }
}

/// Whether `path` is the directory at `dir` or lies below it.
pub fn is_under(dir: &[u8], path: &[u8]) -> (b: bool)
    ensures
        b == under(dir@, path@),
{
    if dir.len() == 0 {
        return true;
    }
    if path.len() < dir.len() {
        return false;
    }
    let head = vstd::slice::slice_subrange(path, 0, dir.len());
    assert(head@ =~= path@.take(dir@.len() as int));
    if !same_bytes(head, dir) {
        proof {
            if path@ == dir@ {
                assert(path@.take(dir@.len() as int) =~= path@);
            }
        }
        return false;
    }
    if path.len() == dir.len() {
        assert(path@ =~= path@.take(dir@.len() as int));
        return true;
    }
    path[dir.len()] == 0x2F
}

impl MockFile {
    /// The path of the file.
    pub closed spec fn path(&self) -> Seq<u8> {
        self.path@
    }

    /// The place where the file is read and written next.
    pub closed spec fn position(&self) -> int {
        self.pos as int
    }

    /// Opens what stands at `path`.
    pub fn new(fs: &MockFilesystem, path: Vec<u8>) -> (r: Result<Self, VfsError>)
        requires
            fs.wf(),
        ensures
            match r {
                Ok(file) => file.path() == path@ && file.position() == 0 && fs@.dom().contains(
                    path@,
                ),
                Err(e) => e == VfsError::NotFound && !fs@.dom().contains(path@),
            },
    {
        if fs.find(path.as_slice()).is_none() {
            return Err(VfsError::NotFound);
        }
        Ok(Self { path, pos: 0 })
    }

    /// The bytes of the file.
    pub fn get_data(&self, fs: &MockFilesystem) -> (r: Result<Vec<u8>, VfsError>)
        requires
            fs.wf(),
        ensures
            match r {
                Ok(data) => fs@.dom().contains(self.path()) && fs@[self.path()] == Some(data@),
                Err(e) => e == VfsError::NotFound && !(fs@.dom().contains(self.path())
                    && fs@[self.path()] is Some),
            },
    {
        match fs.find(self.path.as_slice()) {
            Some(index) => match &fs.filesystem[index].data {
                Some(data) => Ok(slice_to_vec(data.as_slice())),
                None => Err(VfsError::NotFound),
            },
            None => Err(VfsError::NotFound),
        }
    }

    /// Writes `buf` at the place where the file stands, over what lies
    /// there, and moves on behind it.
    pub fn write_all(&mut self, fs: &mut MockFilesystem, buf: &[u8]) -> (r: Result<(), VfsError>)
        requires
            old(fs).wf(),
            old(self).position() + buf@.len() <= usize::MAX,
        ensures
            final(fs).wf(),
            final(self).path() == old(self).path(),
            match r {
                Ok(_) => old(fs)@.dom().contains(old(self).path()) && old(fs)@[old(self).path()] is Some
                    && final(fs)@ == old(fs)@.insert(
                    old(self).path(),
                    Some(
                        written_at(old(fs)@[old(self).path()]->Some_0, old(self).position(), buf@),
                    ),
                ) && final(self).position() == old(self).position() + buf@.len(),
                Err(e) => e == VfsError::NotFound && !(old(fs)@.dom().contains(old(self).path())
                    && old(fs)@[old(self).path()] is Some) && final(fs)@ == old(fs)@
                    && final(self).position() == old(self).position(),
            },
    {
        let mut data = match self.get_data(fs) {
            Ok(data) => data,
            Err(e) => {
                return Err(e);
            },
        };
        let index = match fs.find(self.path.as_slice()) {
            Some(index) => index,
            None => {
                return Err(VfsError::NotFound);
            },
        };
        let ghost before = data@;
        let start = self.pos;
        // Zeros up to the place, where the file is shorter.
        while data.len() < start
            invariant
                data@.len() >= before.len(),
                data@.len() <= start || data@ == before,
                forall|i: int| 0 <= i < before.len() ==> data@[i] == before[i],
                forall|i: int| before.len() <= i < data@.len() ==> data@[i] == 0u8,
            decreases start - data@.len(),
        {
            data.push(0);
        }
        assert(buf@.take(0) =~= Seq::<u8>::empty());
        assert(data@ =~= written_at(before, start as int, buf@.take(0)));
        let mut i: usize = 0;
        while i < buf.len()
            invariant
                i <= buf@.len(),
                start + buf@.len() <= usize::MAX,
                data@.len() >= start + i,
                data@ == written_at(before, start as int, buf@.take(i as int)),
            decreases buf@.len() - i,
        {
            if start + i < data.len() {
                data.set(start + i, buf[i]);
            } else {
                data.push(buf[i]);
            }
            assert(data@ =~= written_at(before, start as int, buf@.take(i + 1)));
            i += 1;
        }
        assert(buf@.take(buf@.len() as int) =~= buf@);
        fs.replace(index, Some(data));
        self.pos = self.pos + buf.len();
        Ok(())
    }

    /// Has nothing to do: the bytes are in the file system as they are
    /// written.
    pub fn flush(&mut self)
        ensures
            *final(self) == *old(self),
    {
    }

    /// Moves to the place `pos` bytes from the start of the file.
    pub fn seek(&mut self, pos: usize)
        ensures
            final(self).path() == old(self).path(),
            final(self).position() == pos,
    {
        self.pos = pos;
    }

    /// Reads from the place where the file stands to its end, puts what it
    /// read behind `out`, and moves on to the end.
    pub fn read_to_end(&mut self, fs: &MockFilesystem, out: &mut Vec<u8>) -> (r: Result<
        usize,
        VfsError,
    >)
        requires
            fs.wf(),
        ensures
            final(self).path() == old(self).path(),
            match r {
                Ok(read) => {
                    let data = fs@[old(self).path()]->Some_0;
                    &&& fs@.dom().contains(old(self).path())
                    &&& fs@[old(self).path()] is Some
                    &&& if old(self).position() <= data.len() {
                        &&& final(out)@ == old(out)@ + data.skip(old(self).position())
                        &&& read == data.len() - old(self).position()
                        &&& final(self).position() == data.len()
                    } else {
                        &&& final(out)@ == old(out)@
                        &&& read == 0
                        &&& final(self).position() == old(self).position()
                    }
                },
                Err(e) => e == VfsError::NotFound && !(fs@.dom().contains(old(self).path())
                    && fs@[old(self).path()] is Some) && final(out)@ == old(out)@
                    && final(self).position() == old(self).position(),
            },
    {
        let data = match self.get_data(fs) {
            Ok(data) => data,
            Err(e) => {
                return Err(e);
            },
        };
        if self.pos > data.len() {
            return Ok(0);
        }
        let start = self.pos;
        let rest = vstd::slice::slice_subrange(data.as_slice(), start, data.len());
        assert(rest@ =~= data@.skip(start as int));
        out.extend_from_slice(rest);
        self.pos = data.len();
        Ok(data.len() - start)
    }

    /// Removes the file.
    pub fn delete(self, fs: &mut MockFilesystem) -> (r: Result<(), VfsError>)
        requires
            old(fs).wf(),
        ensures
            final(fs).wf(),
            match r {
                Ok(_) => old(fs)@.dom().contains(self.path()) && final(fs)@ == old(fs)@.remove(
                    self.path(),
                ),
                Err(e) => e == VfsError::NotFound && !old(fs)@.dom().contains(self.path())
                    && final(fs)@ == old(fs)@,
            },
    {
        match fs.find(self.path.as_slice()) {
            Some(index) => {
                fs.take_out(index);
                Ok(())
            },
            None => Err(VfsError::NotFound),
        }
    }
}

} // verus!
