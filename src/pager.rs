//! The page cache: fixed-size page buffers materialised lazily from a
//! backing byte image and written back to it on request.
use vstd::prelude::*;

verus! {

/// Bytes in one page, the unit of loading and flushing.
pub const PAGE_SIZE: usize = 4096;

/// Byte `q` of the image `f` as a read sees it: zero past the end.
pub open spec fn disk_byte(f: Seq<u8>, q: int) -> u8 {
    if 0 <= q < f.len() {
        f[q]
    } else {
        0
    }
}

/// The buffer that loading page `p` of the image `f` yields.
pub open spec fn disk_page(f: Seq<u8>, p: int) -> Seq<u8> {
    Seq::new(PAGE_SIZE as nat, |j: int| disk_byte(f, p * PAGE_SIZE + j))
}

/// The image `f` after writing `data` at offset `off`; a gap past the old end
/// reads as zeros, and an empty write changes nothing.
pub open spec fn write_at(f: Seq<u8>, off: int, data: Seq<u8>) -> Seq<u8> {
    let len = if data.len() == 0 {
        f.len() as int
    } else if f.len() >= off + data.len() {
        f.len() as int
    } else {
        off + data.len()
    };
    Seq::new(
        len as nat,
        |q: int|
            if off <= q < off + data.len() {
                data[q - off]
            } else {
                disk_byte(f, q)
            },
    )
}

/// Page buffers over a backing image; a slot is either unloaded or holds the
/// authoritative copy of its page.
pub struct Pager {
    file: Vec<u8>,
    pages: Vec<Option<Vec<u8>>>,
}

impl Pager {
    /// The backing image.
    pub closed spec fn image(&self) -> Seq<u8> {
        self.file@
    }

    /// Number of page slots tracked.
    pub closed spec fn slots(&self) -> nat {
        self.pages@.len()
    }

    /// Whether page `p` is held in memory.
    pub closed spec fn loaded(&self, p: int) -> bool {
        0 <= p < self.pages@.len() && self.pages@[p] is Some
    }

    /// The in-memory buffer of a loaded page.
    pub closed spec fn buffer(&self, p: int) -> Seq<u8> {
        self.pages@[p].unwrap()@
    }

    /// The current contents of page `p`: its buffer where loaded, else what
    /// loading it would yield.
    pub open spec fn page_view(&self, p: int) -> Seq<u8> {
        if self.loaded(p) {
            self.buffer(p)
        } else {
            disk_page(self.image(), p)
        }
    }

    /// Every resident page lies within the tracked slots and holds a full
    /// page of bytes.
    pub open spec fn wf(&self) -> bool {
        &&& forall|p: int| #[trigger] self.loaded(p) ==> 0 <= p < self.slots()
        &&& forall|p: int| #[trigger] self.loaded(p) ==> self.buffer(p).len() == PAGE_SIZE
    }

    /// A cache over `file` with one unloaded slot per page the image covers.
    pub fn new(file: Vec<u8>) -> (r: Pager)
        ensures
            r.wf(),
            r.image() == file@,
            r.slots() == (file@.len() + PAGE_SIZE - 1) as int / PAGE_SIZE as int,
            forall|p: int| !#[trigger] r.loaded(p),
    {
        let page_count = file.len() / PAGE_SIZE + if file.len() % PAGE_SIZE == 0 {
            0
        } else {
            1
        };
        let mut pages: Vec<Option<Vec<u8>>> = Vec::new();
        let mut i: usize = 0;
        while i < page_count
            invariant
                i <= page_count,
                pages@.len() == i,
                forall|p: int| 0 <= p < i ==> pages@[p] is None,
            decreases page_count - i,
        {
            pages.push(None);
            i = i + 1;
        }
        Pager { file, pages }
    }

    /// The backing image as it stands.
    pub fn file(&self) -> (r: &Vec<u8>)
        ensures
            r@ == self.image(),
    {
        &self.file
    }

    /// Gives up the cache, handing back the backing image.
    pub fn into_file(self) -> (r: Vec<u8>)
        ensures
            r@ == self.image(),
    {
        self.file
    }

    /// Makes page `page_num` resident, tracking slots up to it; what every
    /// page holds is unchanged.
    pub fn get_page(&mut self, page_num: usize)
        requires
            old(self).wf(),
            page_num < usize::MAX / PAGE_SIZE,
        ensures
            final(self).wf(),
            final(self).image() == old(self).image(),
            final(self).loaded(page_num as int),
            final(self).slots() == if page_num < old(self).slots() {
                old(self).slots() as int
            } else {
                page_num + 1
            },
            forall|p: int|
                p != page_num ==> #[trigger] final(self).loaded(p) == old(self).loaded(p),
            forall|p: int| #[trigger] final(self).page_view(p) == old(self).page_view(p),
    {
        while self.pages.len() <= page_num
            invariant
                self.wf(),
                self.file@ == old(self).file@,
                if old(self).pages@.len() > page_num {
                    self.pages@.len() == old(self).pages@.len()
                } else {
                    old(self).pages@.len() <= self.pages@.len() <= page_num + 1
                },
                forall|p: int|
                    0 <= p < old(self).pages@.len() ==> self.pages@[p] == old(self).pages@[p],
                forall|p: int| old(self).pages@.len() <= p < self.pages@.len() ==> self.pages@[p] is None,
            decreases page_num + 1 - self.pages@.len(),
        {
            let ghost prev = *self;
            self.pages.push(None);
            proof {
                assert forall|p: int| #[trigger] self.loaded(p) implies self.buffer(p).len()
                    == PAGE_SIZE by {
                    assert(prev.loaded(p));
                }
            }
        }
        assert forall|p: int| #[trigger] self.page_view(p) == old(self).page_view(p) by {
            if old(self).loaded(p) {
                assert(self.loaded(p));
            }
        }
        if self.pages[page_num].is_none() {
            let n = self.file.len();
            let base = page_num * PAGE_SIZE;
            let mut buf: Vec<u8> = Vec::new();
            let mut j: usize = 0;
            while j < PAGE_SIZE
                invariant
                    n == self.file@.len(),
                    base == page_num * PAGE_SIZE,
                    base + PAGE_SIZE <= usize::MAX,
                    j <= PAGE_SIZE,
                    buf@ == disk_page(self.file@, page_num as int).subrange(0, j as int),
                decreases PAGE_SIZE - j,
            {
                let b = if base + j < n {
                    self.file[base + j]
                } else {
                    0
                };
                buf.push(b);
                j = j + 1;
                proof {
                    assert(buf@ =~= disk_page(self.file@, page_num as int).subrange(0, j as int));
                }
            }
            let ghost mid = *self;
            self.pages.set(page_num, Some(buf));
            proof {
                assert(buf@ =~= disk_page(self.file@, page_num as int));
                assert forall|p: int| #[trigger] self.loaded(p) implies self.buffer(p).len()
                    == PAGE_SIZE by {
                    if p != page_num {
                        assert(mid.loaded(p));
                    }
                }
                assert forall|p: int| #[trigger] self.page_view(p) == mid.page_view(p) by {
                    if p != page_num {
                        assert(self.loaded(p) == mid.loaded(p));
                    }
                }
                assert forall|p: int| p != page_num implies #[trigger] self.loaded(p)
                    == old(self).loaded(p) by {
                    assert(self.loaded(p) == mid.loaded(p));
                    if old(self).loaded(p) {
                        assert(mid.loaded(p));
                    }
                    if mid.loaded(p) {
                        assert(old(self).loaded(p));
                    }
                }
            }
        }
    }

    /// The buffer of a resident page.
    pub fn page(&self, page_num: usize) -> (r: &[u8])
        requires
            self.loaded(page_num as int),
        ensures
            r@ == self.buffer(page_num as int),
    {
        match &self.pages[page_num] {
            Some(b) => b.as_slice(),
            None => {
                proof {
                    assert(false);
                }
                unreached()
            },
        }
    }

    /// Whether page `page_num` is resident.
    pub fn is_loaded(&self, page_num: usize) -> (r: bool)
        ensures
            r == self.loaded(page_num as int),
    {
        page_num < self.pages.len() && self.pages[page_num].is_some()
    }

    /// A copy of the first `size` bytes of a resident page.
    pub fn page_prefix(&self, page_num: usize, size: usize) -> (r: Vec<u8>)
        requires
            self.wf(),
            self.loaded(page_num as int),
            size <= PAGE_SIZE,
        ensures
            r@ == self.buffer(page_num as int).subrange(0, size as int),
    {
        let page = self.page(page_num);
        let mut out: Vec<u8> = Vec::new();
        let mut j: usize = 0;
        while j < size
            invariant
                page@ == self.buffer(page_num as int),
                page@.len() == PAGE_SIZE,
                size <= PAGE_SIZE,
                j <= size,
                out@ == page@.subrange(0, j as int),
            decreases size - j,
        {
            out.push(page[j]);
            j = j + 1;
            proof {
                assert(out@ =~= page@.subrange(0, j as int));
            }
        }
        out
    }

    /// Copies `data` into the resident page `page_num` at byte `offset`.
    pub fn write_page(&mut self, page_num: usize, offset: usize, data: &[u8])
        requires
            old(self).wf(),
            old(self).loaded(page_num as int),
            offset + data@.len() <= PAGE_SIZE,
        ensures
            final(self).wf(),
            final(self).image() == old(self).image(),
            final(self).slots() == old(self).slots(),
            forall|p: int| #[trigger] final(self).loaded(p) == old(self).loaded(p),
            forall|p: int|
                p != page_num ==> #[trigger] final(self).page_view(p) == old(self).page_view(p),
            final(self).buffer(page_num as int) == old(self).buffer(page_num as int).subrange(
                0,
                offset as int,
            ) + data@ + old(self).buffer(page_num as int).subrange(
                offset + data@.len(),
                PAGE_SIZE as int,
            ),
    {
        let mut slot: Option<Vec<u8>> = None;
        self.pages.set_and_swap(page_num, &mut slot);
        let mut buf = match slot {
            Some(b) => b,
            None => {
                proof {
                    assert(false);
                }
                unreached()
            },
        };
        let ghost orig = buf@;
        let mut j: usize = 0;
        while j < data.len()
            invariant
                orig.len() == PAGE_SIZE,
                offset + data@.len() <= PAGE_SIZE,
                j <= data@.len(),
                buf@ == orig.subrange(0, offset as int) + data@.subrange(0, j as int)
                    + orig.subrange(offset + j, PAGE_SIZE as int),
            decreases data@.len() - j,
        {
            buf.set(offset + j, data[j]);
            j = j + 1;
            proof {
                assert(buf@ =~= orig.subrange(0, offset as int) + data@.subrange(0, j as int)
                    + orig.subrange(offset + j, PAGE_SIZE as int));
            }
        }
        proof {
            assert(data@.subrange(0, j as int) =~= data@);
        }
        let ghost mid = *self;
        self.pages.set(page_num, Some(buf));
        proof {
            assert forall|p: int| #[trigger] self.loaded(p) == old(self).loaded(p) by {
                if p != page_num {
                    assert(self.loaded(p) == mid.loaded(p));
                }
            }
            assert forall|p: int| p != page_num implies #[trigger] self.page_view(p)
                == old(self).page_view(p) by {
                assert(self.loaded(p) == mid.loaded(p));
            }
        }
    }

    /// Writes the first `size` bytes of page `index` back to the image at the
    /// page's offset; nothing happens for a page that was never loaded.
    pub fn flush_page(&mut self, index: usize, size: usize)
        requires
            old(self).wf(),
            size <= PAGE_SIZE,
            index < usize::MAX / PAGE_SIZE,
        ensures
            final(self).wf(),
            final(self).slots() == old(self).slots(),
            forall|p: int| #[trigger] final(self).loaded(p) == old(self).loaded(p),
            forall|p: int| #[trigger] final(self).buffer(p) == old(self).buffer(p),
            final(self).image() == if old(self).loaded(index as int) {
                write_at(
                    old(self).image(),
                    index * PAGE_SIZE,
                    old(self).buffer(index as int).subrange(0, size as int),
                )
            } else {
                old(self).image()
            },
    {
        if index >= self.pages.len() {
            return;
        }
        let buf = match &self.pages[index] {
            Some(b) => b,
            None => {
                return;
            },
        };
        assert(self.loaded(index as int));
        let ghost data = buf@.subrange(0, size as int);
        let ghost f0 = self.file@;
        if size == 0 {
            assert(write_at(f0, index * PAGE_SIZE, data) =~= f0);
            return;
        }
        let off = index * PAGE_SIZE;
        while self.file.len() < off
            invariant
                self.pages == old(self).pages,
                if f0.len() >= off {
                    self.file@.len() == f0.len()
                } else {
                    f0.len() <= self.file@.len() <= off
                },
                forall|q: int| 0 <= q < self.file@.len() ==> self.file@[q] == disk_byte(f0, q),
            decreases off - self.file@.len(),
        {
            self.file.push(0);
        }
        let mut j: usize = 0;
        while j < size
            invariant
                self.pages == old(self).pages,
                buf@.len() == PAGE_SIZE,
                data == buf@.subrange(0, size as int),
                off == index * PAGE_SIZE,
                off + PAGE_SIZE <= usize::MAX,
                0 < size <= PAGE_SIZE,
                j <= size,
                self.file@.len() >= off + j,
                self.file@.len() == if f0.len() >= off + j {
                    f0.len() as int
                } else {
                    off + j
                },
                forall|q: int|
                    0 <= q < self.file@.len() ==> self.file@[q] == if off <= q < off + j {
                        data[q - off]
                    } else {
                        disk_byte(f0, q)
                    },
            decreases size - j,
        {
            if off + j < self.file.len() {
                self.file.set(off + j, buf[j]);
            } else {
                self.file.push(buf[j]);
            }
            j = j + 1;
        }
        proof {
            assert(self.file@ =~= write_at(f0, index * PAGE_SIZE, data));
            assert forall|p: int| #[trigger] self.loaded(p) implies self.buffer(p).len()
                == PAGE_SIZE by {
                assert(old(self).loaded(p));
            }
        }
    }
}

} // verus!
