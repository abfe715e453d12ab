//! The tail of a rotating log: which file is followed, how far it has been read, and
//! how newly appended bytes become whole decoded lines.
use crate::text::chars_of;
use crate::trigger::{captures_of, regex_accepts, ConfigError, Pattern};
use vstd::prelude::*;

verus! {

/// What `encoding_rs::GB18030.decode_without_bom_handling` gives for some bytes.
pub uninterp spec fn gb18030_text(b: Seq<u8>) -> Seq<char>;

/// Relies on encoding_rs's `Encoding::decode_without_bom_handling` for GB18030; it
/// panics only where its output buffer's size overflows, which the bound rules out.
#[verifier::external_body]
fn decode_gb18030(b: &[u8]) -> (r: String)
    requires
        b@.len() <= usize::MAX / 8,
    ensures
        r@ == gb18030_text(b@),
{
    encoding_rs::GB18030.decode_without_bom_handling(b).0.into_owned()
}

/// Index of the first line feed in `b`, if any.
pub open spec fn first_newline(b: Seq<u8>) -> Option<int> {
    if exists|i: int| 0 <= i < b.len() && b[i] == 10u8 && forall|j: int| 0 <= j < i ==> b[j] != 10u8 {
        Some(choose|i: int| 0 <= i < b.len() && b[i] == 10u8 && forall|j: int| 0 <= j < i ==> b[j] != 10u8)
    } else {
        None
    }
}

/// A line without its line feed, and without the carriage return before it.
pub open spec fn strip_cr(b: Seq<u8>) -> Seq<u8> {
    if b.len() > 0 && b.last() == 13u8 {
        b.drop_last()
    } else {
        b
    }
}

/// The whole lines of `b`, each without its terminator; bytes after the last line
/// feed are no line yet.
pub open spec fn lines(b: Seq<u8>) -> Seq<Seq<u8>>
    decreases b.len(),
{
    match first_newline(b) {
        None => Seq::empty(),
        Some(i) => if 0 <= i < b.len() {
            seq![strip_cr(b.take(i))] + lines(b.skip(i + 1))
        } else {
            Seq::empty()
        },
    }
}

/// Bytes that end with a line feed, or none.
pub open spec fn complete(b: Seq<u8>) -> bool {
    b.len() == 0 || b.last() == 10u8
}

/// How many bytes of a chunk make whole lines: up to and with its last line feed.
pub open spec fn whole_len(b: Seq<u8>) -> int {
    if exists|i: int| 0 <= i < b.len() && b[i] == 10u8 {
        1 + choose|i: int| 0 <= i < b.len() && b[i] == 10u8 && forall|j: int| i < j < b.len() ==> b[j] != 10u8
    } else {
        0
    }
}

pub open spec fn decoded(ls: Seq<Seq<u8>>) -> Seq<Seq<char>> {
    ls.map_values(|l: Seq<u8>| gb18030_text(l))
}

proof fn lemma_first_newline_at(b: Seq<u8>, i: int)
    requires
        0 <= i < b.len(),
        b[i] == 10u8,
        forall|j: int| 0 <= j < i ==> b[j] != 10u8,
    ensures
        first_newline(b) == Some(i),
{
    let w = first_newline(b)->0;
    assert(w == i) by {
        if w < i {
            assert(b[w] != 10u8);
        }
        if w > i {
            assert(b[i] != 10u8);
        }
    }
}

/// The lines of whole lines followed by more bytes are those lines, then the lines
/// of the rest.
pub proof fn lemma_lines_append(a: Seq<u8>, b: Seq<u8>)
    requires
        complete(a),
    ensures
        lines(a + b) == lines(a) + lines(b),
    decreases a.len(),
{
    if a.len() == 0 {
        assert(a + b =~= b);
        assert(lines(a) =~= Seq::<Seq<u8>>::empty());
    } else {
        let i = choose|i: int| 0 <= i < a.len() && a[i] == 10u8 && forall|j: int| 0 <= j < i ==> a[j] != 10u8;
        assert(exists|i: int| 0 <= i < a.len() && a[i] == 10u8 && forall|j: int| 0 <= j < i ==> a[j] != 10u8) by {
            let k = choose_first_newline(a);
        }
        lemma_first_newline_at(a, i);
        lemma_first_newline_at(a + b, i);
        assert((a + b).take(i) =~= a.take(i));
        assert((a + b).skip(i + 1) =~= a.skip(i + 1) + b);
        lemma_lines_append(a.skip(i + 1), b);
    }
}

/// A sequence that holds a line feed has a first one.
proof fn choose_first_newline(a: Seq<u8>) -> (k: int)
    requires
        a.len() > 0,
        a.last() == 10u8,
    ensures
        0 <= k < a.len(),
        a[k] == 10u8,
        forall|j: int| 0 <= j < k ==> a[j] != 10u8,
    decreases a.len(),
{
    if a.len() == 1 || a[0] == 10u8 {
        0
    } else {
        let k = choose_first_newline(a.drop_first());
        assert forall|j: int| 0 <= j < k + 1 implies a[j] != 10u8 by {
            if j > 0 {
                assert(a[j] == a.drop_first()[j - 1]);
            }
        }
        k + 1
    }
}

/// One line and its line feed make one line.
proof fn lemma_lines_one(p: Seq<u8>)
    requires
        forall|j: int| 0 <= j < p.len() ==> p[j] != 10u8,
    ensures
        lines(p.push(10u8)) == seq![strip_cr(p)],
{
    let b = p.push(10u8);
    lemma_first_newline_at(b, p.len() as int);
    assert(b.take(p.len() as int) =~= p);
    assert(b.skip(p.len() as int + 1) =~= Seq::<u8>::empty());
    assert(lines(Seq::<u8>::empty()) =~= Seq::<Seq<u8>>::empty());
}

/// Reading a file twice in a row from the offset where the first read stopped hands
/// out each whole line once: the lines of the two reads are those of the bytes that
/// both read, when the first stopped after a line feed.
pub proof fn lemma_reads_once(first: Seq<u8>, second: Seq<u8>)
    requires
        complete(first),
    ensures
        lines(first) + lines(second) == lines(first + second),
        decoded(lines(first)) + decoded(lines(second)) == decoded(lines(first + second)),
{
    lemma_lines_append(first, second);
    assert(decoded(lines(first)) + decoded(lines(second)) =~= decoded(lines(first + second)));
}

/// One more line feed adds one line to the lines read so far.
proof fn lemma_lines_step(b: Seq<u8>, start: int, i: int)
    requires
        0 <= start <= i < b.len(),
        b[i] == 10u8,
        complete(b.take(start)),
        forall|j: int| start <= j < i ==> b[j] != 10u8,
    ensures
        decoded(lines(b.take(i + 1))) == decoded(lines(b.take(start))).push(
            gb18030_text(strip_cr(b.subrange(start, i))),
        ),
{
    let p = b.subrange(start, i);
    assert(b.take(i + 1) =~= b.take(start) + p.push(10u8));
    lemma_lines_append(b.take(start), p.push(10u8));
    lemma_lines_one(p);
    assert(decoded(lines(b.take(i + 1))) =~= decoded(lines(b.take(start))).push(
        gb18030_text(strip_cr(p)),
    ));
}

/// The chunk's whole lines, decoded, and how many bytes they take.
pub fn whole_lines(chunk: &[u8]) -> (r: (Vec<String>, usize))
    requires
        chunk@.len() <= usize::MAX / 8,
    ensures
        r.1 <= chunk@.len(),
        r.1 == whole_len(chunk@),
        complete(chunk@.take(r.1 as int)),
        forall|j: int| r.1 <= j < chunk@.len() ==> chunk@[j] != 10u8,
        crate::trigger::string_views(r.0@) == decoded(lines(chunk@.take(r.1 as int))),
{
    let n = chunk.len();
    let mut end: usize = n;
    while end > 0 && chunk[end - 1] != 10u8
        invariant
            end <= n == chunk@.len(),
            forall|j: int| end <= j < n ==> chunk@[j] != 10u8,
        decreases end,
    {
        end = end - 1;
    }
    proof {
        if end > 0 {
            let i = end - 1;
            assert(chunk@[i] == 10u8);
            let w = choose|i: int| 0 <= i < chunk@.len() && chunk@[i] == 10u8 && forall|j: int| i < j < chunk@.len() ==> chunk@[j] != 10u8;
            assert(w == i) by {
                if w < i {
                    assert(chunk@[i] != 10u8);
                }
                if w > i {
                    assert(chunk@[w] != 10u8);
                }
            }
        }
    }
    let mut out: Vec<String> = Vec::new();
    let mut start: usize = 0;
    let mut i: usize = 0;
    assert(chunk@.take(0) =~= Seq::<u8>::empty());
    assert(lines(Seq::<u8>::empty()) =~= Seq::<Seq<u8>>::empty());
    while i < end
        invariant
            start <= i <= end <= n == chunk@.len(),
            n <= usize::MAX / 8,
            end == 0 || chunk@[end - 1] == 10u8,
            complete(chunk@.take(start as int)),
            forall|j: int| start <= j < i ==> chunk@[j] != 10u8,
            crate::trigger::string_views(out@) == decoded(lines(chunk@.take(start as int))),
        decreases end - i,
    {
        if chunk[i] == 10u8 {
            let mut stop = i;
            if stop > start && chunk[stop - 1] == 13u8 {
                stop = stop - 1;
            }
            let piece = &chunk[start..stop];
            let ghost p = chunk@.subrange(start as int, i as int);
            assert(piece@ =~= strip_cr(p));
            let line = decode_gb18030(piece);
            let ghost before = out@;
            out.push(line);
            proof {
                lemma_lines_step(chunk@, start as int, i as int);
                assert(crate::trigger::string_views(out@) =~= crate::trigger::string_views(before).push(
                    gb18030_text(strip_cr(p)),
                ));
            }
            start = i + 1;
        }
        i = i + 1;
    }
    (out, end)
}

/// Where the tail stands: the file followed, and how many of its bytes have been read.
pub struct Tail {
    pub file: Option<String>,
    pub offset: u64,
}

pub open spec fn name_view(f: Option<String>) -> Option<Seq<char>> {
    match f {
        Some(s) => Some(s@),
        None => None,
    }
}

impl Tail {
    /// A tail that follows no file yet.
    pub fn new() -> (r: Tail)
        ensures
            r.file is None,
            r.offset == 0,
    {
        Tail { file: None, offset: 0 }
    }

    /// The tail at start-up: the newest file, if there is one, is followed from its
    /// end, `len` being its length, so that nothing written before is read again.
    pub fn start(newest: Option<String>, len: u64) -> (r: Tail)
        ensures
            name_view(r.file) == name_view(newest),
            r.offset == (if newest is Some { len } else { 0 }),
    {
        let offset = if newest.is_some() { len } else { 0 };
        Tail { file: newest, offset }
    }

    /// Whether a change to `path` calls for a new look at the directory: no file is
    /// followed, or the change is to another file.
    pub fn needs_rescan(&self, path: &str) -> (r: bool)
        ensures
            r == (self.file is None || self.file->0@ != path@),
    {
        match &self.file {
            None => true,
            Some(f) => {
                let p = path.to_owned();
                !(*f == p)
            },
        }
    }

    /// Follows the newest file: a file other than the one followed is read from its
    /// first byte on, and the one followed keeps its offset.
    pub fn follow(&mut self, newest: Option<String>)
        ensures
            name_view(final(self).file) == name_view(newest),
            final(self).offset == (if name_view(newest) == name_view(old(self).file) {
                old(self).offset
            } else {
                0
            }),
    {
        let same = match (&self.file, &newest) {
            (Some(a), Some(b)) => *a == *b,
            (None, None) => true,
            _ => false,
        };
        if !same {
            self.offset = 0;
        }
        self.file = newest;
    }

    /// Takes the whole lines of `chunk`, the bytes of the followed file from the offset
    /// on, and moves the offset past them; a last line without its line feed waits for
    /// a later read.
    pub fn take(&mut self, chunk: &Vec<u8>) -> (r: Vec<String>)
        requires
            old(self).offset + chunk@.len() <= u64::MAX,
            chunk@.len() <= usize::MAX / 8,
        ensures
            final(self).offset == old(self).offset + whole_len(chunk@),
            name_view(final(self).file) == name_view(old(self).file),
            crate::trigger::string_views(r@) == decoded(lines(chunk@.take(whole_len(chunk@)))),
    {
        let (out, used) = whole_lines(chunk.as_slice());
        self.offset = self.offset + used as u64;
        out
    }
}

/// Lexicographic order of names, character by character.
pub open spec fn name_le(a: Seq<char>, b: Seq<char>) -> bool
    decreases a.len(),
{
    if a.len() == 0 {
        true
    } else if b.len() == 0 {
        false
    } else if a[0] != b[0] {
        a[0] < b[0]
    } else {
        name_le(a.drop_first(), b.drop_first())
    }
}

proof fn lemma_name_le_total(a: Seq<char>, b: Seq<char>)
    ensures
        name_le(a, b) || name_le(b, a),
    decreases a.len(),
{
    if a.len() > 0 && b.len() > 0 && a[0] == b[0] {
        lemma_name_le_total(a.drop_first(), b.drop_first());
    }
}

proof fn lemma_name_le_trans(a: Seq<char>, b: Seq<char>, c: Seq<char>)
    requires
        name_le(a, b),
        name_le(b, c),
    ensures
        name_le(a, c),
    decreases a.len(),
{
    if a.len() > 0 && b.len() > 0 && c.len() > 0 && a[0] == b[0] && b[0] == c[0] {
        lemma_name_le_trans(a.drop_first(), b.drop_first(), c.drop_first());
    }
}

fn name_le_exec(a: &[char], b: &[char]) -> (r: bool)
    ensures
        r == name_le(a@, b@),
{
    let mut i: usize = 0;
    assert(a@.skip(0) =~= a@ && b@.skip(0) =~= b@);
    while i < a.len() && i < b.len() && a[i] == b[i]
        invariant
            i <= a@.len(),
            i <= b@.len(),
            name_le(a@, b@) == name_le(a@.skip(i as int), b@.skip(i as int)),
        decreases a.len() - i,
    {
        assert(a@.skip(i as int).drop_first() =~= a@.skip(i + 1));
        assert(b@.skip(i as int).drop_first() =~= b@.skip(i + 1));
        i = i + 1;
    }
    if i == a.len() {
        true
    } else if i == b.len() {
        false
    } else {
        a[i] < b[i]
    }
}

/// Whether a file name is one of the chat log's.
pub open spec fn is_log_name(pattern: Seq<char>, name: Seq<char>) -> bool {
    captures_of(pattern, name) is Some
}

/// The pattern of the chat log's file names.
pub fn log_name_pattern() -> (r: Result<Pattern, ConfigError>)
    ensures
        r is Ok == regex_accepts("^chat_\\d{6}\\.txt$"@),
        r matches Ok(p) ==> p@ == "^chat_\\d{6}\\.txt$"@,
{
    Pattern::new("^chat_\\d{6}\\.txt$")
}

/// The newest log among the names of a directory's files: the greatest name that
/// the pattern matches, as the names carry an increasing number.
pub fn newest(names: &Vec<String>, pattern: &Pattern) -> (r: Option<usize>)
    ensures
        r is None <==> forall|j: int| 0 <= j < names@.len() ==> !is_log_name(pattern@, #[trigger] names@[j]@),
        r matches Some(i) ==> i < names@.len() && is_log_name(pattern@, names@[i as int]@) && forall|j: int|
            0 <= j < names@.len() && is_log_name(pattern@, #[trigger] names@[j]@) ==> name_le(
                names@[j]@,
                names@[i as int]@,
            ),
{
    let mut best: Option<usize> = None;
    let mut best_chars: Vec<char> = Vec::new();
    let mut k: usize = 0;
    while k < names.len()
        invariant
            k <= names@.len(),
            best is None ==> forall|j: int| 0 <= j < k ==> !is_log_name(pattern@, #[trigger] names@[j]@),
            best matches Some(i) ==> i < k && best_chars@ == names@[i as int]@ && is_log_name(
                pattern@,
                names@[i as int]@,
            ) && forall|j: int|
                0 <= j < k && is_log_name(pattern@, #[trigger] names@[j]@) ==> name_le(
                    names@[j]@,
                    names@[i as int]@,
                ),
        decreases names.len() - k,
    {
        if pattern.groups(names[k].as_str()).is_some() {
            let cand = chars_of(names[k].as_str());
            let better = match best {
                None => true,
                Some(_) => !name_le_exec(&cand, &best_chars),
            };
            if better {
                proof {
                    if best is Some {
                        let i = best->0;
                        lemma_name_le_total(cand@, best_chars@);
                        assert forall|j: int|
                            0 <= j < k + 1 && is_log_name(pattern@, #[trigger] names@[j]@) implies name_le(
                            names@[j]@,
                            cand@,
                        ) by {
                            if j < k {
                                lemma_name_le_trans(names@[j]@, best_chars@, cand@);
                            } else {
                                lemma_name_le_total(cand@, cand@);
                            }
                        }
                    } else {
                        lemma_name_le_total(cand@, cand@);
                    }
                }
                best = Some(k);
                best_chars = cand;
            }
        }
        k = k + 1;
    }
    best
}

} // verus!
