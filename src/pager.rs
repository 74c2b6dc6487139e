use vstd::prelude::*;

verus! {

/// Bytes of the file header: magic tag, page size, logical length.
pub const HEADER_SIZE: usize = 16;

/// The magic tag that opens a page file: `MDB1`.
pub open spec fn magic() -> Seq<u8> {
    seq![0x4du8, 0x44u8, 0x42u8, 0x31u8]
}

/// The pages, one after another.
pub open spec fn concat_pages(pages: Seq<Seq<u8>>) -> Seq<u8>
    decreases pages.len(),
{
    if pages.len() == 0 {
        Seq::empty()
    } else {
        concat_pages(pages.drop_last()) + pages.last()
    }
}

/// `n` zero bytes.
pub open spec fn zeros(n: nat) -> Seq<u8> {
    Seq::new(n, |i: int| 0u8)
}

/// Whether `pages` hold exactly `data`: full pages of `ps` bytes, the data
/// from the start, zero padding after it, and fewer than `ps` padding bytes.
pub open spec fn pages_hold(pages: Seq<Seq<u8>>, ps: nat, data: Seq<u8>) -> bool {
    let all = concat_pages(pages);
    &&& forall|i: int| 0 <= i < pages.len() ==> (#[trigger] pages[i]).len() == ps
    &&& data.len() <= all.len() < data.len() + ps
    &&& all.subrange(0, data.len() as int) == data
    &&& forall|j: int| data.len() <= j < all.len() ==> all[j] == 0u8
}

/// Model of a page store.
pub ghost struct PagerModel {
    pub page_size: nat,
    pub pages: Seq<Seq<u8>>,
    pub length: nat,
}

/// The logical blob: the pages in order, cut to the logical length.
pub open spec fn blob_of(m: PagerModel) -> Seq<u8> {
    let all = concat_pages(m.pages);
    if m.length <= all.len() {
        all.subrange(0, m.length as int)
    } else {
        all
    }
}

/// Page count and page size of a store.
#[derive(Debug, PartialEq)]
pub struct PagerStats {
    pub pages: usize,
    pub page_size: usize,
}

/// Fixed-size page storage holding one logical byte blob.
pub struct Pager {
    page_size: usize,
    pages: Vec<Vec<u8>>,
    length: usize,
}

impl View for Pager {
    type V = PagerModel;

    closed spec fn view(&self) -> PagerModel {
        PagerModel {
            page_size: self.page_size as nat,
            pages: self.pages@.map_values(|p: Vec<u8>| p@),
            length: self.length as nat,
        }
    }
}

/// Appending a page appends its bytes.
proof fn lemma_concat_push(pages: Seq<Seq<u8>>, p: Seq<u8>)
    ensures
        concat_pages(pages.push(p)) == concat_pages(pages) + p,
{
    assert(pages.push(p).drop_last() == pages);
}

/// A page of `n` zero bytes.
fn zero_page(n: usize) -> (r: Vec<u8>)
    ensures
        r@ == zeros(n as nat),
{
    let mut r: Vec<u8> = Vec::with_capacity(n);
    let mut i: usize = 0;
    while i < n
        invariant
            i <= n,
            r@ == zeros(i as nat),
        decreases n - i,
    {
        r.push(0u8);
        assert(r@ =~= zeros((i + 1) as nat));
        i = i + 1;
    }
    r
}

/// The `k` little-endian bytes of `x` (higher bytes dropped).
pub open spec fn le_bytes(x: nat, k: nat) -> Seq<u8>
    decreases k,
{
    if k == 0 {
        Seq::empty()
    } else {
        seq![(x % 256) as u8] + le_bytes(x / 256, (k - 1) as nat)
    }
}

/// The number that little-endian bytes encode.
pub open spec fn le_value(s: Seq<u8>) -> nat
    decreases s.len(),
{
    if s.len() == 0 {
        0
    } else {
        s[0] as nat + 256 * le_value(s.drop_first())
    }
}

/// 256 to the power `k`.
pub open spec fn pow256(k: nat) -> nat
    decreases k,
{
    if k == 0 {
        1
    } else {
        256 * pow256((k - 1) as nat)
    }
}

/// The file image of a store: nothing when it has no page, else the magic
/// tag, the page size in four bytes, the logical length in eight bytes, and
/// the pages.
pub open spec fn file_image(m: PagerModel) -> Seq<u8> {
    if m.pages.len() == 0 {
        Seq::empty()
    } else {
        magic() + le_bytes(m.page_size, 4) + le_bytes(m.length, 8) + concat_pages(m.pages)
    }
}

/// Whether `bytes` open with a well-formed header.
pub open spec fn has_header(bytes: Seq<u8>) -> bool {
    bytes.len() >= 16 && bytes.subrange(0, 4) == magic()
}

/// Appends the `k` little-endian bytes of `x`.
fn push_le(out: &mut Vec<u8>, x: u64, k: usize)
    ensures
        final(out)@ == old(out)@ + le_bytes(x as nat, k as nat),
{
    let mut v: u64 = x;
    let mut i: usize = 0;
    while i < k
        invariant
            i <= k,
            old(out)@ + le_bytes(x as nat, k as nat) == out@ + le_bytes(v as nat, (k - i) as nat),
        decreases k - i,
    {
        let ghost prev = out@;
        out.push((v % 256) as u8);
        assert(le_bytes(v as nat, (k - i) as nat) == seq![(v % 256) as u8] + le_bytes((v / 256) as nat, (k - i - 1) as nat));
        assert(prev + le_bytes(v as nat, (k - i) as nat) =~= out@ + le_bytes((v / 256) as nat, (k - i - 1) as nat));
        v = v / 256;
        i = i + 1;
    }
    assert(le_bytes(v as nat, 0) =~= Seq::<u8>::empty());
    assert(out@ + le_bytes(v as nat, 0) =~= out@);
}

/// The number encoded by `bytes[from..to]`, little-endian, at most eight bytes.
fn read_le(bytes: &[u8], from: usize, to: usize) -> (r: u64)
    requires
        from <= to <= bytes@.len(),
        to - from <= 8,
    ensures
        r as nat == le_value(bytes@.subrange(from as int, to as int)),
        r < pow256((to - from) as nat),
{
    let mut v: u64 = 0;
    let mut i: usize = to;
    proof {
        assert(bytes@.subrange(to as int, to as int) =~= Seq::<u8>::empty());
        lemma_pow256_mono(0, 8);
    }
    while i > from
        invariant
            from <= i <= to,
            to <= bytes@.len(),
            to - from <= 8,
            v as nat == le_value(bytes@.subrange(i as int, to as int)),
            v < pow256((to - i) as nat),
            pow256((to - i) as nat) <= pow256(8),
        decreases i - from,
    {
        let b = bytes[i - 1];
        let ghost s = bytes@.subrange(i - 1, to as int);
        assert(s.drop_first() =~= bytes@.subrange(i as int, to as int));
        assert(pow256((to - i + 1) as nat) == 256 * pow256((to - i) as nat));
        proof {
            lemma_pow256_mono((to - i + 1) as nat, 8);
        }
        assert(pow256(8) == 0x1_0000_0000_0000_0000) by {
            reveal_with_fuel(pow256, 9);
        }
        assert(v * 256 + b < 256 * pow256((to - i) as nat)) by (nonlinear_arith)
            requires
                v < pow256((to - i) as nat),
                b < 256,
        ;
        v = v * 256 + b as u64;
        i = i - 1;
    }
    v
}

/// Powers of 256 grow with the exponent.
proof fn lemma_pow256_mono(a: nat, b: nat)
    requires
        a <= b,
    ensures
        pow256(a) <= pow256(b),
    decreases b,
{
    if a < b {
        lemma_pow256_mono(a, (b - 1) as nat);
    }
}

/// The bytes of `s` from position `from` on.
fn slice_from(s: &[u8], from: usize) -> (r: &[u8])
    requires
        from <= s@.len(),
    ensures
        r@ == s@.subrange(from as int, s@.len() as int),
{
    vstd::slice::slice_subrange(s, from, s.len())
}

/// Views of a list of pages.
pub open spec fn pages_view(pages: Seq<Vec<u8>>) -> Seq<Seq<u8>> {
    pages.map_values(|p: Vec<u8>| p@)
}

/// The bytes `data[start..start + take]` followed by zeros up to `ps` bytes.
fn page_from(data: &[u8], start: usize, take: usize, ps: usize) -> (r: Vec<u8>)
    requires
        start + take <= data@.len(),
        take <= ps,
    ensures
        r@ == data@.subrange(start as int, start + take) + zeros((ps - take) as nat),
{
    let mut r: Vec<u8> = Vec::with_capacity(ps);
    let mut i: usize = 0;
    assert(data@.len() == data.len());
    while i < take
        invariant
            i <= take,
            start + take <= data@.len(),
            data@.len() <= usize::MAX,
            r@ == data@.subrange(start as int, start + i),
        decreases take - i,
    {
        r.push(data[start + i]);
        assert(r@ =~= data@.subrange(start as int, start + i + 1));
        i = i + 1;
    }
    while i < ps
        invariant
            take <= i <= ps,
            start + take <= data@.len(),
            r@ == data@.subrange(start as int, start + take) + zeros((i - take) as nat),
        decreases ps - i,
    {
        r.push(0u8);
        assert(r@ =~= data@.subrange(start as int, start + take) + zeros((i + 1 - take) as nat));
        i = i + 1;
    }
    r
}

impl Pager {
    /// The page size is positive and every page has exactly that size.
    pub closed spec fn wf(&self) -> bool {
        &&& self.page_size > 0
        &&& forall|i: int| 0 <= i < self.pages@.len() ==> (#[trigger] self.pages@[i])@.len() == self.page_size
    }

    /// An empty store with the given page size.
    pub fn new(page_size: usize) -> (r: Pager)
        requires
            page_size > 0,
        ensures
            r.wf(),
            r@ == (PagerModel { page_size: page_size as nat, pages: Seq::empty(), length: 0 }),
    {
        let r = Pager { page_size, pages: Vec::new(), length: 0 };
        assert(r@.pages =~= Seq::<Seq<u8>>::empty());
        r
    }

    /// Appends a zeroed page and returns its index.
    pub fn allocate_page(&mut self) -> (r: usize)
        requires
            old(self).wf(),
        ensures
            final(self).wf(),
            r == old(self)@.pages.len(),
            final(self)@ == (PagerModel { pages: old(self)@.pages.push(zeros(old(self)@.page_size)), ..old(self)@ }),
    {
        let page = zero_page(self.page_size);
        self.pages.push(page);
        assert(self@.pages =~= old(self)@.pages.push(zeros(old(self)@.page_size)));
        self.pages.len() - 1
    }

    /// Writes `data` at the start of page `index`, cut to the page size;
    /// zeroed pages are added first when the page does not exist yet.
    pub fn write_page(&mut self, index: usize, data: &[u8])
        requires
            old(self).wf(),
            index < usize::MAX,
        ensures
            final(self).wf(),
            final(self)@.page_size == old(self)@.page_size,
            final(self)@.length == old(self)@.length,
            final(self)@.pages.len() == if index < old(self)@.pages.len() {
                old(self)@.pages.len() as int
            } else {
                index + 1
            },
            forall|i: int| 0 <= i < final(self)@.pages.len() && i != index ==> #[trigger] final(self)@.pages[i] == if i
                < old(self)@.pages.len() {
                old(self)@.pages[i]
            } else {
                zeros(old(self)@.page_size)
            },
            ({
                let before = if index < old(self)@.pages.len() {
                    old(self)@.pages[index as int]
                } else {
                    zeros(old(self)@.page_size)
                };
                let k = if data@.len() < old(self)@.page_size { data@.len() as int } else { old(self)@.page_size as int };
                final(self)@.pages[index as int] == data@.subrange(0, k) + before.subrange(k, before.len() as int)
            }),
    {
        let ghost old_pages = self@.pages;
        while index >= self.pages.len()
            invariant
                self.wf(),
                self.page_size == old(self).page_size,
                self.length == old(self).length,
                old_pages == old(self)@.pages,
                old_pages.len() <= self.pages@.len() <= if index < old_pages.len() {
                    old_pages.len() as int
                } else {
                    index + 1
                },
                forall|i: int| 0 <= i < self.pages@.len() ==> #[trigger] self@.pages[i] == if i < old_pages.len() {
                    old_pages[i]
                } else {
                    zeros(self.page_size as nat)
                },
            decreases index + 1 - self.pages@.len(),
        {
            let page = zero_page(self.page_size);
            let ghost prev = self@.pages;
            self.pages.push(page);
            assert(self@.pages =~= prev.push(zeros(self.page_size as nat)));
        }
        let k = if data.len() < self.page_size { data.len() } else { self.page_size };
        let ghost before = self@.pages[index as int];
        let mut j: usize = 0;
        while j < k
            invariant
                self.wf(),
                self.page_size == old(self).page_size,
                self.length == old(self).length,
                k <= data@.len(),
                k <= self.page_size,
                index < self.pages@.len(),
                before.len() == self.page_size,
                j <= k,
                self.pages@.len() == if index < old_pages.len() {
                    old_pages.len() as int
                } else {
                    index + 1
                },
                forall|i: int| 0 <= i < self.pages@.len() && i != index ==> #[trigger] self@.pages[i] == if i < old_pages.len() {
                    old_pages[i]
                } else {
                    zeros(self.page_size as nat)
                },
                self@.pages[index as int] == data@.subrange(0, j as int) + before.subrange(j as int, before.len() as int),
            decreases k - j,
        {
            let b = data[j];
            let ghost prev = self.pages@;
            let ghost prevv = self@.pages;
            self.pages[index].set(j, b);
            assert forall|i: int| 0 <= i < prev.len() && i != index implies #[trigger] self@.pages[i] == prevv[i] by {
                assert(self.pages@[i] == prev[i]);
            }
            assert(self@.pages[index as int] =~= data@.subrange(0, j + 1) + before.subrange(j + 1, before.len() as int));
            j = j + 1;
        }
    }

    /// Replaces every page so that they hold exactly `data`, and sets the
    /// logical length; an empty blob leaves no page.
    pub fn write_blob(&mut self, data: &[u8])
        requires
            old(self).wf(),
        ensures
            final(self).wf(),
            final(self)@.page_size == old(self)@.page_size,
            final(self)@.length == data@.len(),
            pages_hold(final(self)@.pages, final(self)@.page_size, data@),
            data@.len() == 0 ==> final(self)@.pages.len() == 0,
            blob_of(final(self)@) == data@,
    {
        let n = data.len();
        let ps = self.page_size;
        let mut pages: Vec<Vec<u8>> = Vec::new();
        let mut start: usize = 0;
        let mut done = false;
        while start < n && !done
            invariant
                start <= n,
                ps > 0,
                n == data@.len(),
                forall|i: int| 0 <= i < pages@.len() ==> (#[trigger] pages@[i])@.len() == ps,
                !done ==> concat_pages(pages_view(pages@)) == data@.subrange(0, start as int),
                done ==> pages_hold(pages_view(pages@), ps as nat, data@),
            decreases n - start + if done { 0int } else { 1int },
        {
            let rem = n - start;
            let take = if rem < ps { rem } else { ps };
            let page = page_from(data, start, take, ps);
            let ghost prev = pages_view(pages@);
            pages.push(page);
            proof {
                assert(pages_view(pages@) =~= prev.push(page@));
                lemma_concat_push(prev, page@);
            }
            let ghost all = concat_pages(pages_view(pages@));
            if rem <= ps {
                done = true;
                assert(all =~= data@ + zeros((ps - take) as nat));
                assert(all.subrange(0, n as int) =~= data@);
            } else {
                start = start + ps;
                assert(all =~= data@.subrange(0, start as int));
            }
        }
        if !done {
            assert(data@.subrange(0, n as int) =~= data@);
        }
        self.pages = pages;
        self.length = n;
        assert(self@.pages =~= pages_view(self.pages@));
        if n == 0 {
            assert(self@.pages.len() == 0) by {
                if self@.pages.len() > 0 {
                    lemma_concat_push(self@.pages.drop_last(), self@.pages.last());
                    assert(self@.pages.drop_last().push(self@.pages.last()) =~= self@.pages);
                }
            }
        }
    }

    /// The pages in order, cut to the logical length.
    pub fn read_blob(&self) -> (r: Vec<u8>)
        ensures
            r@ == blob_of(self@),
    {
        let mut buffer: Vec<u8> = Vec::new();
        let mut i: usize = 0;
        while i < self.pages.len()
            invariant
                i <= self.pages@.len(),
                buffer@ == concat_pages(self@.pages.subrange(0, i as int)),
            decreases self.pages@.len() - i,
        {
            let page = &self.pages[i];
            let ghost base = buffer@;
            let mut j: usize = 0;
            while j < page.len()
                invariant
                    j <= page@.len(),
                    buffer@ == base + page@.subrange(0, j as int),
                decreases page@.len() - j,
            {
                buffer.push(page[j]);
                assert(buffer@ =~= base + page@.subrange(0, j + 1));
                j = j + 1;
            }
            proof {
                assert(page@.subrange(0, j as int) =~= page@);
                assert(self@.pages.subrange(0, i + 1) =~= self@.pages.subrange(0, i as int).push(self@.pages[i as int]));
                lemma_concat_push(self@.pages.subrange(0, i as int), self@.pages[i as int]);
            }
            i = i + 1;
        }
        assert(self@.pages.subrange(0, i as int) =~= self@.pages);
        buffer.truncate(self.length);
        buffer
    }

    /// The file image of this store.
    pub fn to_file_bytes(&self) -> (r: Vec<u8>)
        ensures
            r@ == file_image(self@),
    {
        if self.pages.len() == 0 {
            return Vec::new();
        }
        let mut out: Vec<u8> = Vec::new();
        out.push(0x4du8);
        out.push(0x44u8);
        out.push(0x42u8);
        out.push(0x31u8);
        assert(out@ =~= magic());
        push_le(&mut out, self.page_size as u64, 4);
        push_le(&mut out, self.length as u64, 8);
        let ghost head = out@;
        let mut i: usize = 0;
        while i < self.pages.len()
            invariant
                i <= self.pages@.len(),
                out@ == head + concat_pages(self@.pages.subrange(0, i as int)),
            decreases self.pages@.len() - i,
        {
            let page = &self.pages[i];
            let ghost base = out@;
            let mut j: usize = 0;
            while j < page.len()
                invariant
                    j <= page@.len(),
                    out@ == base + page@.subrange(0, j as int),
                decreases page@.len() - j,
            {
                out.push(page[j]);
                assert(out@ =~= base + page@.subrange(0, j + 1));
                j = j + 1;
            }
            proof {
                assert(page@.subrange(0, j as int) =~= page@);
                assert(self@.pages.subrange(0, i + 1) =~= self@.pages.subrange(0, i as int).push(self@.pages[i as int]));
                lemma_concat_push(self@.pages.subrange(0, i as int), self@.pages[i as int]);
                assert(out@ =~= head + concat_pages(self@.pages.subrange(0, i + 1)));
            }
            i = i + 1;
        }
        assert(self@.pages.subrange(0, i as int) =~= self@.pages);
        out
    }

    /// A store read back from a file image: with a well-formed header the
    /// stored page size (when positive) and length are taken and the rest is
    /// cut into pages; otherwise an empty store with the requested page size.
    pub fn from_file_bytes(bytes: &[u8], requested_page_size: usize) -> (r: Pager)
        requires
            requested_page_size > 0,
        ensures
            r.wf(),
            !has_header(bytes@) ==> r@ == (PagerModel {
                page_size: requested_page_size as nat,
                pages: Seq::empty(),
                length: 0,
            }),
            has_header(bytes@) ==> {
                let stored = le_value(bytes@.subrange(4, 8));
                &&& r@.page_size == if stored > 0 { stored } else { requested_page_size as nat }
                &&& r@.length == le_value(bytes@.subrange(8, 16)) as usize
                &&& pages_hold(r@.pages, r@.page_size, bytes@.subrange(16, bytes@.len() as int))
            },
    {
        if bytes.len() < HEADER_SIZE || bytes[0] != 0x4du8 || bytes[1] != 0x44u8 || bytes[2] != 0x42u8 || bytes[3] != 0x31u8 {
            proof {
                if bytes@.len() >= 16 {
                    assert(bytes@.subrange(0, 4)[0] == bytes@[0]);
                    assert(bytes@.subrange(0, 4)[1] == bytes@[1]);
                    assert(bytes@.subrange(0, 4)[2] == bytes@[2]);
                    assert(bytes@.subrange(0, 4)[3] == bytes@[3]);
                }
            }
            return Pager::new(requested_page_size);
        }
        assert(bytes@.subrange(0, 4) =~= magic());
        let stored = read_le(bytes, 4, 8);
        let length = read_le(bytes, 8, 16);
        assert(pow256(4) == 0x1_0000_0000) by {
            reveal_with_fuel(pow256, 5);
        }
        let page_size: usize = if stored > 0 { stored as usize } else { requested_page_size };
        let payload = slice_from(bytes, HEADER_SIZE);
        let mut pager = Pager::new(page_size);
        pager.write_blob(payload);
        pager.length = #[verifier::truncate] (length as usize);
        pager
    }

    /// The bytes of page `index`, if it exists.
    pub fn read_page(&self, index: usize) -> (r: Option<&[u8]>)
        ensures
            index < self@.pages.len() ==> (r matches Some(p) && p@ == self@.pages[index as int]),
            index >= self@.pages.len() ==> r is None,
    {
        if index < self.pages.len() {
            Some(self.pages[index].as_slice())
        } else {
            None
        }
    }

    /// Page count and page size.
    pub fn stats(&self) -> (r: PagerStats)
        ensures
            r.pages == self@.pages.len(),
            r.page_size == self@.page_size,
    {
        PagerStats { pages: self.pages.len(), page_size: self.page_size }
    }
}

} // verus!
