//! File records found by the directory walk, the FNV-1a pre-screen hash of a
//! file head, and the MD5 content digest used to confirm duplicates.
use vstd::prelude::*;

use crate::text::string_from_chars;

verus! {

/// A regular file found by the walk.
pub struct WalkFile {
    pub path: String,
    pub size: u64,
    pub modified_ms: u64,
    pub is_cloud: bool,
}

impl WalkFile {
    /// A field-by-field copy.
    pub fn copy(&self) -> (r: WalkFile)
        ensures
            r == *self,
    {
        WalkFile { path: self.path.clone(), size: self.size, modified_ms: self.modified_ms, is_cloud: self.is_cloud }
    }
}

/// A message from a walk worker.
pub enum WalkMsg {
    File(WalkFile),
    Done,
}

/// Progress counters of a walk.
pub struct WalkCounters {
    pub files_seen: u64,
    pub bytes_seen: u64,
    pub skipped_dirs: u64,
}

/// FNV-1a 64-bit offset basis.
pub const FNV_OFFSET: u64 = 0xcbf2_9ce4_8422_2325;

/// FNV-1a 64-bit prime.
pub const FNV_PRIME: u64 = 0x0000_0100_0000_01b3;

/// FNV-1a 64-bit hash of a byte sequence.
pub open spec fn fnv64a_spec(data: Seq<u8>) -> u64
    decreases data.len(),
{
    if data.len() == 0 {
        FNV_OFFSET
    } else {
        (fnv64a_spec(data.drop_last()) ^ (data.last() as u64)).wrapping_mul(FNV_PRIME)
    }
}

/// FNV-1a 64-bit hash (pre-screen of the first 4 KB; not cryptographic).
pub fn fnv64a(data: &[u8]) -> (h: u64)
    ensures
        h == fnv64a_spec(data@),
{
    let mut hash: u64 = FNV_OFFSET;
    let mut i: usize = 0;
    while i < data.len()
        invariant
            i <= data.len(),
            hash == fnv64a_spec(data@.take(i as int)),
        decreases data.len() - i,
    {
        let b = data[i];
        proof {
            assert(data@.take(i + 1).drop_last() =~= data@.take(i as int));
        }
        hash = hash ^ (b as u64);
        hash = hash.wrapping_mul(FNV_PRIME);
        i = i + 1;
    }
    assert(data@.take(data.len() as int) =~= data@);
    hash
}

/// The `md5` crate's hashing context, carried opaquely.
#[verifier::external_type_specification]
#[verifier::external_body]
pub struct ExMd5Context(md5::Context);

/// The bytes that an `md5::Context` has consumed since it was created.
pub uninterp spec fn md5_consumed(ctx: md5::Context) -> Seq<u8>;

/// The MD5 digest (16 bytes) of a byte sequence, as `md5::Context::compute` returns it.
pub uninterp spec fn md5_digest(data: Seq<u8>) -> Seq<u8>;

/// `md5::Context::new`: a context that has consumed nothing.
#[verifier::external_body]
fn md5_context_new() -> (c: md5::Context)
    ensures
        md5_consumed(c) == Seq::<u8>::empty(),
{
    md5::Context::new()
}

/// `md5::Context::consume`: the context has now also consumed `data`.
#[verifier::external_body]
fn md5_context_consume(c: &mut md5::Context, data: &[u8])
    ensures
        md5_consumed(*final(c)) == md5_consumed(*old(c)) + data@,
{
    c.consume(data)
}

/// `md5::Context::compute`: the 16-byte digest of everything consumed.
#[verifier::external_body]
fn md5_context_compute(c: md5::Context) -> (d: [u8; 16])
    ensures
        d@ == md5_digest(md5_consumed(c)),
{
    c.compute().0
}

/// A running MD5 computation over data fed in chunks.
pub struct Md5Stream {
    ctx: md5::Context,
}

impl View for Md5Stream {
    type V = Seq<u8>;

    /// The bytes fed so far.
    closed spec fn view(&self) -> Seq<u8> {
        md5_consumed(self.ctx)
    }
}

/// Lower-case hexadecimal digit for `n` in `0..16`.
pub open spec fn hex_digit(n: int) -> char {
    if n < 10 { (48 + n) as char } else { (87 + n) as char }
}

/// Lower-case hex of a byte sequence, two digits per byte (as `format!("{:x}", digest)`).
pub open spec fn hex_lower(bytes: Seq<u8>) -> Seq<char>
    decreases bytes.len(),
{
    if bytes.len() == 0 {
        Seq::empty()
    } else {
        hex_lower(bytes.drop_last()) + seq![hex_digit(bytes.last() as int / 16), hex_digit(bytes.last() as int % 16)]
    }
}

fn hex_digit_exec(n: u8) -> (c: char)
    requires
        n < 16,
    ensures
        c == hex_digit(n as int),
{
    if n < 10 {
        (48u8 + n) as char
    } else {
        (87u8 + n) as char
    }
}

/// Lower-case hex of bytes.
pub fn to_hex_lower(bytes: &[u8]) -> (s: String)
    ensures
        s@ == hex_lower(bytes@),
{
    let mut out: Vec<char> = Vec::new();
    let mut i: usize = 0;
    while i < bytes.len()
        invariant
            i <= bytes.len(),
            out@ == hex_lower(bytes@.take(i as int)),
        decreases bytes.len() - i,
    {
        let b = bytes[i];
        out.push(hex_digit_exec(b / 16));
        out.push(hex_digit_exec(b % 16));
        proof {
            assert(bytes@.take(i + 1).drop_last() =~= bytes@.take(i as int));
            assert(hex_lower(bytes@.take(i + 1)) =~= hex_lower(bytes@.take(i as int)) + seq![hex_digit(b as int / 16), hex_digit(b as int % 16)]);
        }
        i = i + 1;
    }
    assert(bytes@.take(bytes.len() as int) =~= bytes@);
    string_from_chars(&out)
}

impl Md5Stream {
    /// A stream that has been fed nothing.
    pub fn new() -> (s: Md5Stream)
        ensures
            s@ == Seq::<u8>::empty(),
    {
        Md5Stream { ctx: md5_context_new() }
    }

    /// Feeds the next chunk.
    pub fn update(&mut self, data: &[u8])
        ensures
            final(self)@ == old(self)@ + data@,
    {
        md5_context_consume(&mut self.ctx, data);
    }

    /// Lower-case hex of the MD5 digest of everything fed.
    pub fn finish_hex(self) -> (s: String)
        ensures
            s@ == hex_lower(md5_digest(self@)),
    {
        let d = md5_context_compute(self.ctx);
        to_hex_lower(&d)
    }
}

/// Lower-case hex MD5 digest of a byte slice.
pub fn md5_hex(data: &[u8]) -> (s: String)
    ensures
        s@ == hex_lower(md5_digest(data@)),
{
    let mut st = Md5Stream::new();
    st.update(data);
    assert(st@ =~= data@);
    st.finish_hex()
}

} // verus!

verus! {

/// Number of worker threads for a walk: the setting, kept within 1 to 16.
pub fn worker_count(threads: usize) -> (n: usize)
    ensures
        n == (if threads < 1 { 1 } else if threads > 16 { 16 } else { threads }),
{
    if threads < 1 {
        1
    } else if threads > 16 {
        16
    } else {
        threads
    }
}

/// The shared work list of a walk: directories found but not yet read, and the
/// number being read. The walk is over when both are exhausted.
pub struct WalkQueue {
    queue: std::collections::VecDeque<String>,
    active: usize,
}

impl WalkQueue {
    /// Directories waiting to be read, in order.
    pub closed spec fn waiting(&self) -> Seq<Seq<char>> {
        self.queue@.map_values(|s: String| s@)
    }

    /// Directories being read.
    pub closed spec fn active(&self) -> nat {
        self.active as nat
    }

    /// Directories found and not yet finished.
    pub open spec fn pending(&self) -> nat {
        self.waiting().len() + self.active()
    }

    /// A work list holding the roots.
    pub fn new(roots: Vec<String>) -> (q: WalkQueue)
        ensures
            q.waiting() == roots@.map_values(|s: String| s@),
            q.active() == 0,
    {
        let mut queue: std::collections::VecDeque<String> = std::collections::VecDeque::new();
        let mut i: usize = 0;
        while i < roots.len()
            invariant
                i <= roots.len(),
                queue@.len() == i,
                forall|k: int| 0 <= k < i ==> #[trigger] queue@[k]@ == roots@[k]@,
            decreases roots.len() - i,
        {
            queue.push_back(roots[i].clone());
            i = i + 1;
        }
        assert(queue@.map_values(|s: String| s@) =~= roots@.map_values(|s: String| s@));
        WalkQueue { queue, active: 0 }
    }

    /// Takes the oldest waiting directory to read it.
    pub fn take(&mut self) -> (d: Option<String>)
        requires
            old(self).active() < usize::MAX,
        ensures
            match d {
                Some(s) => old(self).waiting().len() > 0 && s@ == old(self).waiting()[0]
                    && final(self).waiting() == old(self).waiting().skip(1) && final(self).active() == old(self).active() + 1,
                None => old(self).waiting().len() == 0 && final(self).waiting() == old(self).waiting()
                    && final(self).active() == old(self).active(),
            },
    {
        let d = self.queue.pop_front();
        match d {
            Some(s) => {
                self.active = self.active + 1;
                proof {
                    assert(self.queue@.map_values(|s: String| s@) =~= old(self).queue@.map_values(|s: String| s@).skip(1));
                }
                Some(s)
            },
            None => None,
        }
    }

    /// Records a subdirectory found while reading.
    pub fn discover(&mut self, dir: String)
        ensures
            final(self).waiting() == old(self).waiting().push(dir@),
            final(self).active() == old(self).active(),
    {
        self.queue.push_back(dir);
        proof {
            assert(self.queue@.map_values(|s: String| s@) =~= old(self).queue@.map_values(|s: String| s@).push(dir@));
        }
    }

    /// Records that a directory taken earlier has been read.
    pub fn finish(&mut self)
        requires
            old(self).active() > 0,
        ensures
            final(self).waiting() == old(self).waiting(),
            final(self).active() == old(self).active() - 1,
    {
        self.active = self.active - 1;
    }

    /// The walk is over: nothing waits and nothing is being read.
    pub fn is_done(&self) -> (b: bool)
        ensures
            b == (self.pending() == 0),
    {
        self.queue.len() == 0 && self.active == 0
    }
}

/// What a walk worker does with one directory entry.
#[derive(PartialEq, Eq, Structural, Clone, Copy, Debug)]
pub enum EntryAction {
    /// A directory to read later.
    Enqueue,
    /// A file counted in the progress but below the size threshold.
    Count,
    /// A file counted and reported.
    Report,
    /// Anything else (links, reparse points, other entries).
    Skip,
}

/// The walk's rule: directories are read unless they are links or reparse
/// points; regular files that are not links are counted, and reported when at
/// least `threshold` bytes.
pub fn walk_entry(is_dir: bool, is_file: bool, is_symlink: bool, is_reparse: bool, size: u64, threshold: u64) -> (a: EntryAction)
    ensures
        a == (if is_dir {
            if !is_symlink && !is_reparse { EntryAction::Enqueue } else { EntryAction::Skip }
        } else if is_file && !is_symlink {
            if size >= threshold { EntryAction::Report } else { EntryAction::Count }
        } else {
            EntryAction::Skip
        }),
{
    if is_dir {
        if !is_symlink && !is_reparse { EntryAction::Enqueue } else { EntryAction::Skip }
    } else if is_file && !is_symlink {
        if size >= threshold { EntryAction::Report } else { EntryAction::Count }
    } else {
        EntryAction::Skip
    }
}

impl WalkCounters {
    /// Counters at zero.
    pub fn new() -> (c: WalkCounters)
        ensures
            c.files_seen == 0 && c.bytes_seen == 0 && c.skipped_dirs == 0,
    {
        WalkCounters { files_seen: 0, bytes_seen: 0, skipped_dirs: 0 }
    }

    /// Counts a file seen (the counters wrap around as atomic adds do).
    pub fn count_file(&mut self, size: u64)
        ensures
            final(self).files_seen == (old(self).files_seen + 1) % 0x1_0000_0000_0000_0000,
            final(self).bytes_seen == (old(self).bytes_seen + size) % 0x1_0000_0000_0000_0000,
            final(self).skipped_dirs == old(self).skipped_dirs,
    {
        self.files_seen = self.files_seen.wrapping_add(1);
        self.bytes_seen = self.bytes_seen.wrapping_add(size);
    }

    /// Counts a directory that could not be read.
    pub fn skip_dir(&mut self)
        ensures
            final(self).skipped_dirs == (old(self).skipped_dirs + 1) % 0x1_0000_0000_0000_0000,
            final(self).files_seen == old(self).files_seen,
            final(self).bytes_seen == old(self).bytes_seen,
    {
        self.skipped_dirs = self.skipped_dirs.wrapping_add(1);
    }
}

/// Gathers what the workers report: files up to a limit (the excess is only
/// noted), and how many workers have finished.
pub struct Collector {
    pub files: Vec<WalkFile>,
    pub truncated: bool,
    pub done_workers: usize,
}

impl Collector {
    /// Nothing gathered yet.
    pub fn new() -> (c: Collector)
        ensures
            c.files@.len() == 0 && !c.truncated && c.done_workers == 0,
    {
        Collector { files: Vec::new(), truncated: false, done_workers: 0 }
    }

    /// Takes one worker message.
    pub fn receive(&mut self, msg: WalkMsg, max_files: usize)
        requires
            old(self).done_workers < usize::MAX,
        ensures
            match msg {
                WalkMsg::File(f) => {
                    &&& old(self).files@.len() < max_files ==> final(self).files@ == old(self).files@.push(f)
                        && final(self).truncated == old(self).truncated
                    &&& old(self).files@.len() >= max_files ==> final(self).files@ == old(self).files@
                        && final(self).truncated
                    &&& final(self).done_workers == old(self).done_workers
                },
                WalkMsg::Done => {
                    &&& final(self).files@ == old(self).files@
                    &&& final(self).truncated == old(self).truncated
                    &&& final(self).done_workers == old(self).done_workers + 1
                },
            },
    {
        match msg {
            WalkMsg::File(f) => {
                if self.files.len() < max_files {
                    self.files.push(f);
                } else {
                    self.truncated = true;
                }
            },
            WalkMsg::Done => {
                self.done_workers = self.done_workers + 1;
            },
        }
    }

    /// Every worker has reported that it is done.
    pub fn all_done(&self, workers: usize) -> (b: bool)
        ensures
            b == (self.done_workers >= workers),
    {
        self.done_workers >= workers
    }
}

} // verus!
