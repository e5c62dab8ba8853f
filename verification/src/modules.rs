//! Boot modules: the files handed to a Multiboot kernel alongside it, and the
//! table their names are kept in.

use vstd::prelude::*;

verus! {

/// Information about a loaded boot module.
#[derive(Clone, Copy, PartialEq, Eq, Structural)]
pub struct ModuleInfo {
    /// Address of this module's NUL-terminated ASCII name in the name table.
    ///
    /// Kept as a full 64-bit address; the Multiboot writers narrow it where
    /// the format demands 32 bits.
    pub name_ptr: u64,
    /// Physical start address of the module data.
    pub phys_start: u64,
    /// Size in bytes.
    pub size: u64,
}

/// The size of the module name table.
pub const NAME_TABLE_SIZE: usize = 4096;

/// The units of a UEFI name up to its first NUL.
pub open spec fn before_nul(name: Seq<u16>) -> Seq<u16>
    decreases name.len(),
{
    if name.len() == 0 {
        name
    } else if before_nul(name.drop_last()).len() < name.len() - 1 {
        before_nul(name.drop_last())
    } else if name.last() == 0 {
        name.drop_last()
    } else {
        name
    }
}

/// A name as ASCII: each unit below 128 as itself, anything else as `?`.
pub open spec fn ascii_name(name: Seq<u16>) -> Seq<u8> {
    let u = before_nul(name);
    Seq::new(u.len(), |i: int| if u[i] < 128 { u[i] as u8 } else { 0x3Fu8 })
}

/// A table's bytes `buf` with its first `pos` in use: the buffer is its fixed
/// size, the used part fits, and, unless it is empty, ends with a NUL.
pub open spec fn table_wf(buf: Seq<u8>, pos: nat) -> bool {
    &&& buf.len() == NAME_TABLE_SIZE
    &&& pos <= NAME_TABLE_SIZE
    &&& pos > 0 ==> buf[pos - 1] == 0
}

/// The name a table with `pos` bytes in use keeps of `name`: its ASCII form,
/// cut short to leave room for the terminator, and empty once the table is
/// full.
pub open spec fn stored_name(pos: nat, name: Seq<u16>) -> Seq<u8> {
    if pos >= NAME_TABLE_SIZE {
        seq![]
    } else {
        let room = NAME_TABLE_SIZE - 1 - pos;
        let a = ascii_name(name);
        if a.len() <= room { a } else { a.take(room) }
    }
}

/// Storing `name` in a table: its bytes and the bytes in use afterwards,
/// and where the name given back starts. A full table is left as it was and
/// names its last byte.
pub open spec fn spec_store(buf: Seq<u8>, pos: nat, name: Seq<u16>) -> (Seq<u8>, nat, nat) {
    if pos >= NAME_TABLE_SIZE {
        (buf, pos, (NAME_TABLE_SIZE - 1) as nat)
    } else {
        let stored = stored_name(pos, name);
        (
            buf.take(pos as int) + stored + seq![0u8] + buf.skip((pos + stored.len() + 1) as int),
            pos + stored.len() + 1,
            pos,
        )
    }
}

/// The names of loaded modules, as NUL-terminated ASCII strings packed one
/// after another in a fixed buffer, which outlives boot services.
pub struct NameTable {
    buf: Vec<u8>,
    pos: usize,
}

impl View for NameTable {
    type V = (Seq<u8>, nat);

    closed spec fn view(&self) -> (Seq<u8>, nat) {
        (self.buf@, self.pos as nat)
    }
}

impl NameTable {
    /// The buffer is its fixed size, what is used of it does not run past
    /// its end, and what is used ends with a NUL.
    pub open spec fn wf(&self) -> bool {
        table_wf(self@.0, self@.1)
    }

    pub fn new() -> (t: Self)
        ensures
            t.wf(),
            t@.0 == crate::le::zeros(NAME_TABLE_SIZE as int),
            t@.1 == 0,
    {
        let mut buf: Vec<u8> = Vec::new();
        crate::le::push_zeros(&mut buf, NAME_TABLE_SIZE);
        NameTable { buf, pos: 0 }
    }

    /// The bytes of the table.
    pub fn bytes(&self) -> (r: &Vec<u8>)
        ensures
            r@ == self@.0,
    {
        &self.buf
    }

    /// Store a module's name and return where it starts in the table.
    ///
    /// The name is cut at its first NUL and written as ASCII, with `?` for
    /// what ASCII cannot say, then NUL-terminated. When the table is nearly
    /// full the name is cut short to leave room for the terminator; when it is
    /// full nothing is written and the last byte, which is a NUL, is named.
    pub fn store_name(&mut self, name: &[u16]) -> (r: usize)
        requires
            old(self).wf(),
        ensures
            final(self).wf(),
            (final(self)@.0, final(self)@.1, r as nat) == spec_store(old(self)@.0, old(self)@.1, name@),
            old(self)@.1 >= NAME_TABLE_SIZE ==> r == NAME_TABLE_SIZE - 1 && final(self)@ == old(self)@,
            old(self)@.1 < NAME_TABLE_SIZE ==> {
                let pos = old(self)@.1 as int;
                let room = NAME_TABLE_SIZE - 1 - pos;
                let a = ascii_name(name@);
                let stored = if a.len() <= room { a } else { a.take(room) };
                &&& r == pos
                &&& final(self)@.1 == pos + stored.len() + 1
                &&& final(self)@.0 == old(self)@.0.take(pos) + stored + seq![0u8] + old(self)@.0.skip(
                    pos + stored.len() + 1,
                )
            },
    {
        let pos = self.pos;
        if pos >= NAME_TABLE_SIZE {
            return NAME_TABLE_SIZE - 1;
        }
        let ghost a = ascii_name(name@);
        let ghost room = NAME_TABLE_SIZE - 1 - pos;
        let mut written: usize = 0;
        let mut i: usize = 0;
        let mut done = false;
        let ghost buf0 = self.buf@;
        while i < name.len() && !done
            invariant
                self.buf@.len() == NAME_TABLE_SIZE,
                pos < NAME_TABLE_SIZE,
                buf0.len() == NAME_TABLE_SIZE,
                i <= name@.len(),
                written <= i,
                written <= room,
                !done ==> written == i && before_nul(name@.take(i as int)) == name@.take(i as int),
                done ==> (written == room && written <= a.len()) || (written == a.len()),
                written <= a.len(),
                self.buf@ == buf0.take(pos as int) + a.take(written as int) + buf0.skip(pos + written),
                a == ascii_name(name@),
                room == NAME_TABLE_SIZE - 1 - pos,
            decreases name@.len() - i + (if done { 0int } else { 1int }),
        {
            let val = name[i];
            if val == 0 {
                proof { lemma_before_nul_at(name@, i as int); }
                done = true;
            } else if pos + written >= NAME_TABLE_SIZE - 1 {
                proof { lemma_before_nul_prefix(name@, i as int); }
                done = true;
            } else {
                proof { lemma_before_nul_prefix(name@, i as int); }
                let c: u8 = if val < 128 { val as u8 } else { 0x3F };
                let ghost before = self.buf@;
                self.buf.set(pos + written, c);
                assert(a[written as int] == c);
                assert(self.buf@ =~= buf0.take(pos as int) + a.take(written + 1) + buf0.skip(pos + written + 1));
                written = written + 1;
                i = i + 1;
            }
        }
        if !done {
            assert(name@.take(i as int) =~= name@);
        }
        let ghost stored = if a.len() <= room { a } else { a.take(room) };
        assert(written == stored.len());
        assert(a.take(written as int) =~= stored);
        self.buf.set(pos + written, 0);
        self.pos = pos + written + 1;
        assert(self.buf@ =~= buf0.take(pos as int) + stored + seq![0u8] + buf0.skip(pos + stored.len() + 1));
        assert(stored == stored_name(pos as nat, name@));
        pos
    }
}

impl NameTable {
    /// The name stored at `offset`: the bytes from there up to the next NUL.
    pub fn name_at(&self, offset: usize) -> (r: Vec<u8>)
        requires
            self.wf(),
            offset < NAME_TABLE_SIZE,
        ensures
            r@ == name_from(self@.0, offset as int),
    {
        let mut out: Vec<u8> = Vec::new();
        let mut i = offset;
        while i < NAME_TABLE_SIZE && self.buf[i] != 0
            invariant
                self.wf(),
                offset <= i <= NAME_TABLE_SIZE,
                out@ == self@.0.subrange(offset as int, i as int),
                forall|k: int| offset <= k < i ==> self@.0[k] != 0,
            decreases NAME_TABLE_SIZE - i,
        {
            out.push(self.buf[i]);
            i = i + 1;
            assert(out@ =~= self@.0.subrange(offset as int, i as int));
        }
        proof { lemma_name_from(self@.0, offset as int, i as int); }
        out
    }
}

/// The bytes of `buf` from `offset` up to the next NUL, or to the end.
pub open spec fn name_from(buf: Seq<u8>, offset: int) -> Seq<u8>
    decreases buf.len() - offset,
{
    if offset < 0 || offset >= buf.len() || buf[offset] == 0 {
        seq![]
    } else {
        seq![buf[offset]] + name_from(buf, offset + 1)
    }
}

proof fn lemma_name_from(buf: Seq<u8>, offset: int, end: int)
    requires
        0 <= offset <= end <= buf.len(),
        forall|k: int| offset <= k < end ==> buf[k] != 0,
        end == buf.len() || buf[end] == 0,
    ensures
        name_from(buf, offset) == buf.subrange(offset, end),
    decreases end - offset,
{
    if offset < end {
        lemma_name_from(buf, offset + 1, end);
        assert(seq![buf[offset]] + buf.subrange(offset + 1, end) =~= buf.subrange(offset, end));
    }
}

/// A stored name reads back as it was stored.
pub proof fn lemma_store_then_read(before: Seq<u8>, pos: int, stored: Seq<u8>)
    requires
        0 <= pos,
        pos + stored.len() + 1 <= before.len(),
        forall|k: int| 0 <= k < stored.len() ==> stored[k] != 0,
    ensures
        name_from(before.take(pos) + stored + seq![0u8] + before.skip(pos + stored.len() + 1), pos)
            == stored,
{
    let after = before.take(pos) + stored + seq![0u8] + before.skip(pos + stored.len() + 1);
    lemma_name_from(after, pos, pos + stored.len());
    assert(after.subrange(pos, pos + stored.len()) =~= stored);
}

/// Storing a name leaves the names stored before it as they were.
pub proof fn lemma_store_keeps_earlier(before: Seq<u8>, pos: int, stored: Seq<u8>, i: int)
    requires
        0 <= i < pos,
        pos + stored.len() + 1 <= before.len(),
    ensures
        (before.take(pos) + stored + seq![0u8] + before.skip(pos + stored.len() + 1))[i] == before[i],
{
}

/// The table after storing each of `names` in turn, starting from `buf` with
/// `pos` bytes in use, and where each name given back starts.
pub open spec fn store_all(buf: Seq<u8>, pos: nat, names: Seq<Seq<u16>>) -> (Seq<u8>, nat, Seq<nat>)
    decreases names.len(),
{
    if names.len() == 0 {
        (buf, pos, seq![])
    } else {
        let (b, p, offs) = store_all(buf, pos, names.drop_last());
        let (b2, p2, r) = spec_store(b, p, names.last());
        (b2, p2, offs.push(r))
    }
}

/// Names stored one after another stay as they were stored: whatever
/// sequence of names is stored, each one given back reads as its ASCII form
/// (cut short near the end, empty once the table is full), however many are
/// stored after it; the table stays well formed and what was in use before
/// is never touched.
pub proof fn lemma_store_sequence(buf: Seq<u8>, pos: nat, names: Seq<Seq<u16>>)
    requires
        table_wf(buf, pos),
    ensures
        ({
            let (b, p, offs) = store_all(buf, pos, names);
            &&& table_wf(b, p)
            &&& pos <= p
            &&& b.take(pos as int) == buf.take(pos as int)
            &&& offs.len() == names.len()
            &&& forall|i: int| 0 <= i < names.len() ==> {
                &&& #[trigger] offs[i] < p
                &&& name_from(b, offs[i] as int) == stored_name(
                    store_all(buf, pos, names.take(i)).1,
                    names[i],
                )
            }
        }),
    decreases names.len(),
{
    if names.len() > 0 {
        let init = names.drop_last();
        lemma_store_sequence(buf, pos, init);
        let (b1, p1, offs1) = store_all(buf, pos, init);
        let (b, p, offs) = store_all(buf, pos, names);
        let last = names.last();
        let r = spec_store(b1, p1, last).2;
        assert(offs == offs1.push(r));
        assert(b.take(p1 as int) =~= b1.take(p1 as int));
        assert(b.take(pos as int) =~= b1.take(pos as int));
        if p1 < NAME_TABLE_SIZE {
            let stored = stored_name(p1, last);
            lemma_ascii_name_no_nul(last);
            assert forall|k: int| 0 <= k < stored.len() implies stored[k] != 0 by {
                assert(stored[k] == ascii_name(last)[k]);
            }
            lemma_store_then_read(b1, p1 as int, stored);
            assert(b[p - 1] == 0);
        } else {
            assert(name_from(b, (NAME_TABLE_SIZE - 1) as int) == Seq::<u8>::empty());
        }
        assert forall|i: int| 0 <= i < names.len() implies {
            &&& #[trigger] offs[i] < p
            &&& name_from(b, offs[i] as int) == stored_name(store_all(buf, pos, names.take(i)).1, names[i])
        } by {
            if i < init.len() {
                assert(names.take(i) =~= init.take(i));
                assert(offs[i] == offs1[i]);
                lemma_name_from_kept(b1, b, p1 as int, offs1[i] as int);
            } else {
                assert(names.take(i) =~= init);
            }
        }
    }
}

/// A name that ends before the first `p` bytes do reads the same in any
/// buffer that agrees with `buf` on those bytes.
proof fn lemma_name_from_kept(buf: Seq<u8>, other: Seq<u8>, p: int, o: int)
    requires
        0 <= o < p <= buf.len(),
        p <= other.len(),
        buf[p - 1] == 0,
        other.take(p) == buf.take(p),
    ensures
        name_from(other, o) == name_from(buf, o),
    decreases p - o,
{
    assert(other[o] == other.take(p)[o]);
    if buf[o] != 0 {
        lemma_name_from_kept(buf, other, p, o + 1);
    }
}

/// No stored name holds a NUL: every unit becomes a non-zero ASCII byte.
pub proof fn lemma_ascii_name_no_nul(name: Seq<u16>)
    ensures
        forall|k: int| 0 <= k < ascii_name(name).len() ==> #[trigger] ascii_name(name)[k] != 0,
{
    lemma_before_nul_no_nul(name);
}

proof fn lemma_before_nul_no_nul(name: Seq<u16>)
    ensures
        forall|k: int| 0 <= k < before_nul(name).len() ==> #[trigger] before_nul(name)[k] != 0,
        before_nul(name).len() <= name.len(),
        before_nul(name) == name.take(before_nul(name).len() as int),
    decreases name.len(),
{
    if name.len() > 0 {
        let d = name.drop_last();
        lemma_before_nul_no_nul(d);
        if before_nul(d).len() < name.len() - 1 {
            assert(d.take(before_nul(d).len() as int) =~= name.take(before_nul(d).len() as int));
        } else if name.last() == 0 {
            assert(d =~= name.take(d.len() as int));
        } else {
            assert forall|k: int| 0 <= k < name.len() implies #[trigger] name[k] != 0 by {
                if k < name.len() - 1 {
                    assert(name[k] == before_nul(d)[k]);
                }
            }
            assert(name =~= name.take(name.len() as int));
        }
    }
}

proof fn lemma_before_nul_prefix(name: Seq<u16>, i: int)
    requires
        0 <= i < name.len(),
        before_nul(name.take(i)) == name.take(i),
        name[i] != 0,
    ensures
        before_nul(name.take(i + 1)) == name.take(i + 1),
        before_nul(name).len() > i,
        before_nul(name).take(i + 1) == name.take(i + 1),
{
    assert(name.take(i + 1).drop_last() =~= name.take(i));
    lemma_before_nul_extends(name, i + 1);
}

proof fn lemma_before_nul_at(name: Seq<u16>, i: int)
    requires
        0 <= i < name.len(),
        before_nul(name.take(i)) == name.take(i),
        name[i] == 0,
    ensures
        before_nul(name) == name.take(i),
{
    assert(name.take(i + 1).drop_last() =~= name.take(i));
    assert(before_nul(name.take(i + 1)) == name.take(i));
    lemma_before_nul_stops(name, i + 1, i);
}

/// Once the name up to `k` is cut at its NUL at `j`, so is all of it.
proof fn lemma_before_nul_stops(name: Seq<u16>, k: int, j: int)
    requires
        0 <= j < k <= name.len(),
        before_nul(name.take(k)) == name.take(j),
    ensures
        before_nul(name) == name.take(j),
    decreases name.len() - k,
{
    if k < name.len() {
        assert(name.take(k + 1).drop_last() =~= name.take(k));
        assert(before_nul(name.take(k + 1)) == name.take(j));
        lemma_before_nul_stops(name, k + 1, j);
    } else {
        assert(name.take(k) =~= name);
    }
}

/// A prefix free of NUL stays in what `before_nul` keeps.
proof fn lemma_before_nul_extends(name: Seq<u16>, k: int)
    requires
        0 <= k <= name.len(),
        before_nul(name.take(k)) == name.take(k),
    ensures
        before_nul(name).len() >= k,
        before_nul(name).take(k) == name.take(k),
    decreases name.len() - k,
{
    if k < name.len() {
        assert(name.take(k + 1).drop_last() =~= name.take(k));
        if name[k] == 0 {
            assert(before_nul(name.take(k + 1)) == name.take(k));
            lemma_before_nul_stops(name, k + 1, k);
        } else {
            assert(before_nul(name.take(k + 1)) == name.take(k + 1));
            lemma_before_nul_extends(name, k + 1);
            assert(before_nul(name).take(k + 1).take(k) =~= before_nul(name).take(k));
            assert(name.take(k + 1).take(k) =~= name.take(k));
        }
    } else {
        assert(name.take(k) =~= name);
    }
}

/// Whether a directory entry is loaded as a module: a file, not a
/// directory, and not empty.
pub fn module_entry_wanted(is_directory: bool, file_size: u64) -> (r: bool)
    ensures
        r == (!is_directory && file_size != 0),
{
    !is_directory && file_size != 0
}

/// Whether a module was read whole: a short read is not loaded.
pub fn module_read_whole(read_len: usize, file_size: u64) -> (r: bool)
    ensures
        r == (read_len as int == file_size as int),
{
    read_len as u64 == file_size
}

/// Pages a module of `file_size` bytes is loaded into.
pub open spec fn spec_module_pages(file_size: u64) -> int {
    (file_size + 4095) / 4096
}

pub fn module_pages(file_size: u64) -> (r: u64)
    ensures
        r == spec_module_pages(file_size),
{
    let p = file_size / 4096 + if file_size % 4096 == 0 { 0 } else { 1 };
    assert(p == (file_size + 4095) / 4096) by (nonlinear_arith)
        requires p == file_size / 4096 + if file_size % 4096 == 0 { 0int } else { 1int };
    p
}

} // verus!
