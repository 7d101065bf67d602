//! Executable memory: anonymous pages that are either writable or
//! executable, never both.

use vstd::prelude::*;
use memmap2::{Mmap, MmapMut};

verus! {

#[verifier::external_type_specification]
#[verifier::external_body]
pub struct ExMmapMut(MmapMut);

#[verifier::external_type_specification]
#[verifier::external_body]
pub struct ExMmap(Mmap);

/// The bytes of a writable mapping.
pub uninterp spec fn writable_bytes(m: MmapMut) -> Seq<u8>;

/// The bytes of an executable mapping.
pub uninterp spec fn executable_bytes(m: Mmap) -> Seq<u8>;

/// Relies on `memmap2::MmapMut::map_anon`: on success, a writable anonymous
/// mapping whose slice has exactly `len` bytes.
#[verifier::external_body]
fn map_anon(len: usize) -> (r: Option<MmapMut>)
    ensures
        r matches Some(m) ==> writable_bytes(m).len() == len,
{
    MmapMut::map_anon(len).ok()
}

/// Relies on `MmapMut`'s `DerefMut` to `[u8]`: sets the byte at `i` and no
/// other.
#[verifier::external_body]
fn set_byte(m: &mut MmapMut, i: usize, b: u8)
    requires
        i < writable_bytes(*old(m)).len(),
    ensures
        writable_bytes(*final(m)) == writable_bytes(*old(m)).update(i as int, b),
{
    m[i] = b;
}

/// Relies on `MmapMut`'s `Deref` to `[u8]`: reads the byte at `i`.
#[verifier::external_body]
fn get_byte(m: &MmapMut, i: usize) -> (r: u8)
    requires
        i < writable_bytes(*m).len(),
    ensures
        r == writable_bytes(*m)[i as int],
{
    m[i]
}

/// Relies on `memmap2::MmapMut::make_exec`: on success the same mapping,
/// with the same bytes, now readable and executable and not writable.
#[verifier::external_body]
fn make_exec(m: MmapMut) -> (r: Option<Mmap>)
    ensures
        r matches Some(x) ==> executable_bytes(x) == writable_bytes(m),
{
    m.make_exec().ok()
}

/// Relies on `memmap2::Mmap::make_mut`: on success the same mapping, with
/// the same bytes, now readable and writable and not executable.
#[verifier::external_body]
fn make_mut(m: Mmap) -> (r: Option<MmapMut>)
    ensures
        r matches Some(x) ==> writable_bytes(x) == executable_bytes(m),
{
    m.make_mut().ok()
}

/// Why executable memory could not be had.
#[derive(Clone, Copy, Debug, PartialEq, Eq, Structural)]
pub enum MemoryError {
    /// The page size is zero, or the size asked for does not fit in memory.
    BadSize,
    /// The system refused to map the pages.
    MapFailed,
    /// The system refused to change the pages' protection.
    ProtectFailed,
}

/// The byte that fills memory not written: `int3`, a trap.
pub const FILL: u8 = 0xcc;

/// The number of pages that `len` bytes of code take: `len / page_size`
/// rounded up, and at least one.
pub open spec fn pages_for_spec(len: nat, page_size: nat) -> nat {
    if len == 0 {
        1
    } else {
        ((len + page_size - 1) / page_size as int) as nat
    }
}

/// Pages of writable memory, filled with [`FILL`] where nothing was
/// written.
pub struct JitMemory {
    contents: MmapMut,
}

/// The same pages made executable.
pub struct JitFunction {
    contents: Mmap,
}

impl View for JitMemory {
    type V = Seq<u8>;

    closed spec fn view(&self) -> Seq<u8> {
        writable_bytes(self.contents)
    }
}

impl View for JitFunction {
    type V = Seq<u8>;

    closed spec fn view(&self) -> Seq<u8> {
        executable_bytes(self.contents)
    }
}

/// The number of pages that `len` bytes of code take.
pub fn pages_for(len: usize, page_size: usize) -> (r: usize)
    requires
        page_size > 0,
    ensures
        r == pages_for_spec(len as nat, page_size as nat),
{
    if len == 0 {
        1
    } else {
        let q = len / page_size;
        let r = if len % page_size == 0 {
            q
        } else {
            assert(page_size != 1);
            assert(q <= len / 2) by (nonlinear_arith)
                requires
                    page_size >= 2,
                    q == len / page_size,
            ;
            q + 1
        };
        proof {
            let l = len as int;
            let p = page_size as int;
            vstd::arithmetic::div_mod::lemma_fundamental_div_mod(l, p);
            vstd::arithmetic::div_mod::lemma_fundamental_div_mod(l + p - 1, p);
            assert(0 <= l % p < p) by {
                vstd::arithmetic::div_mod::lemma_mod_bound(l, p);
            }
            assert(0 <= (l + p - 1) % p < p) by {
                vstd::arithmetic::div_mod::lemma_mod_bound(l + p - 1, p);
            }
            assert(r == (l + p - 1) / p) by (nonlinear_arith)
                requires
                    l == p * (l / p) + l % p,
                    l + p - 1 == p * ((l + p - 1) / p) + (l + p - 1) % p,
                    0 <= l % p < p,
                    0 <= (l + p - 1) % p < p,
                    q == l / p,
                    r == (if l % p == 0 { q as int } else { q + 1 }),
                    p > 0,
            ;
        }
        r
    }
}

impl JitMemory {
    /// `num_pages` pages of `page_size` bytes, writable, filled with
    /// [`FILL`].
    pub fn new(num_pages: usize, page_size: usize) -> (r: Result<JitMemory, MemoryError>)
        ensures
            match r {
                Ok(m) => m@ == Seq::new((num_pages * page_size) as nat, |i: int| FILL),
                Err(e) => e != MemoryError::ProtectFailed,
            },
            r matches Err(MemoryError::BadSize) <==> (page_size == 0 || num_pages * page_size
                > usize::MAX),
    {
        if page_size == 0 {
            return Err(MemoryError::BadSize);
        }
        let size = match num_pages.checked_mul(page_size) {
            Some(s) => s,
            None => return Err(MemoryError::BadSize),
        };
        let mut page = match map_anon(size) {
            Some(p) => p,
            None => return Err(MemoryError::MapFailed),
        };
        let mut i: usize = 0;
        while i < size
            invariant
                i <= size,
                writable_bytes(page).len() == size,
                forall|k: int| 0 <= k < i ==> writable_bytes(page)[k] == FILL,
            decreases size - i,
        {
            set_byte(&mut page, i, FILL);
            i = i + 1;
        }
        let m = JitMemory { contents: page };
        assert(m@ =~= Seq::new((num_pages * page_size) as nat, |i: int| FILL));
        Ok(m)
    }

    /// Writes the byte at `i`.
    pub fn write(&mut self, i: usize, b: u8)
        requires
            i < old(self)@.len(),
        ensures
            final(self)@ == old(self)@.update(i as int, b),
    {
        set_byte(&mut self.contents, i, b);
    }

    /// Reads the byte at `i`.
    pub fn read(&self, i: usize) -> (r: u8)
        requires
            i < self@.len(),
        ensures
            r == self@[i as int],
    {
        get_byte(&self.contents, i)
    }

    /// Copies `data` to the start of the memory.
    pub fn copy_from(&mut self, data: &[u8])
        requires
            data@.len() <= old(self)@.len(),
        ensures
            final(self)@ == data@ + old(self)@.subrange(data@.len() as int, old(self)@.len() as int),
    {
        let mut i: usize = 0;
        while i < data.len()
            invariant
                i <= data@.len() <= old(self)@.len(),
                self@.len() == old(self)@.len(),
                forall|k: int| 0 <= k < i ==> self@[k] == data@[k],
                forall|k: int| i <= k < self@.len() ==> self@[k] == old(self)@[k],
            decreases data@.len() - i,
        {
            self.write(i, data[i]);
            i = i + 1;
        }
        assert(self@ =~= data@ + old(self)@.subrange(data@.len() as int, old(self)@.len() as int));
    }

    /// Makes the memory executable and no longer writable.
    pub fn freeze(self) -> (r: Result<JitFunction, MemoryError>)
        ensures
            match r {
                Ok(f) => f@ == self@,
                Err(e) => e == MemoryError::ProtectFailed,
            },
    {
        match make_exec(self.contents) {
            Some(x) => Ok(JitFunction { contents: x }),
            None => Err(MemoryError::ProtectFailed),
        }
    }
}

impl JitFunction {
    /// Makes the memory writable again and no longer executable.
    pub fn thaw(self) -> (r: Result<JitMemory, MemoryError>)
        ensures
            match r {
                Ok(m) => m@ == self@,
                Err(e) => e == MemoryError::ProtectFailed,
            },
    {
        match make_mut(self.contents) {
            Some(x) => Ok(JitMemory { contents: x }),
            None => Err(MemoryError::ProtectFailed),
        }
    }

    /// The executable mapping, whose start is the function's entry point.
    pub fn code(&self) -> (r: &Mmap)
        ensures
            executable_bytes(*r) == self@,
    {
        &self.contents
    }
}

proof fn lemma_pages_cover(len: nat, page_size: nat)
    requires
        page_size > 0,
    ensures
        len <= pages_for_spec(len, page_size) * page_size,
{
    if len > 0 {
        let l = len as int;
        let p = page_size as int;
        vstd::arithmetic::div_mod::lemma_fundamental_div_mod(l + p - 1, p);
        vstd::arithmetic::div_mod::lemma_mod_bound(l + p - 1, p);
        let q = (l + p - 1) / p;
        assert(l <= q * p) by (nonlinear_arith)
            requires
                l + p - 1 == p * q + (l + p - 1) % p,
                (l + p - 1) % p < p,
        ;
    }
}

/// Loads `code` into executable memory: as many pages as it takes, the code
/// at the start and the rest filled with [`FILL`].
pub fn native_function(code: &[u8], page_size: usize) -> (r: Result<JitFunction, MemoryError>)
    ensures
        match r {
            Ok(f) => f@.len() == pages_for_spec(code@.len(), page_size as nat) * page_size
                && f@ == code@ + Seq::new((f@.len() - code@.len()) as nat, |i: int| FILL),
            Err(e) => e == MemoryError::BadSize ==> page_size == 0 || pages_for_spec(
                code@.len(),
                page_size as nat,
            ) * page_size > usize::MAX,
        },
        page_size == 0 ==> r matches Err(MemoryError::BadSize),
{
    if page_size == 0 {
        return Err(MemoryError::BadSize);
    }
    let pages = pages_for(code.len(), page_size);
    let mut memory = match JitMemory::new(pages, page_size) {
        Ok(m) => m,
        Err(e) => return Err(e),
    };
    proof {
        lemma_pages_cover(code@.len(), page_size as nat);
    }
    memory.copy_from(code);
    let f = match memory.freeze() {
        Ok(f) => f,
        Err(e) => return Err(e),
    };
    assert(f@ =~= code@ + Seq::new((f@.len() - code@.len()) as nat, |i: int| FILL));
    Ok(f)
}

} // verus!
