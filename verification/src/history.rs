//! The in-memory history of received messages, newest first.
use vstd::prelude::*;
use vstd::string::{StringExecFns, StringSliceAdditionalSpecFns};
use vstd::utf8::{decode_utf8, encode_utf8, is_char_boundary};

verus! {

/// Whether `s` reads as a time of day in the form `HH:MM:SS`: three fields
/// of two decimal digits each, separated by colons.
pub open spec fn is_hms(s: Seq<char>) -> bool {
    &&& s.len() == 8
    &&& s[2] == ':'
    &&& s[5] == ':'
    &&& forall|i: int| 0 <= i < 8 && i != 2 && i != 5 ==> '0' <= #[trigger] s[i] <= '9'
}

/// Calls `chrono::Local::now().format("%H:%M:%S")`: the local wall-clock time.
///
/// Claimed of it: the text has the `HH:MM:SS` shape, as chrono documents the
/// three specifiers (each a number zero-padded to two digits) and the format
/// string puts colons between them. Which time it shows is not stated: it
/// depends on the clock.
#[verifier::external_body]
fn local_clock_hms() -> (s: String)
    ensures
        is_hms(s@),
{
    chrono::Local::now().format("%H:%M:%S").to_string()
}

/// One received message and the local time at which it arrived.
#[derive(Debug, Clone)]
pub struct HistoryEntry {
    pub timestamp: String,
    pub text: String,
}

/// The UTF-8 bytes of a text.
pub open spec fn utf8_bytes(text: Seq<char>) -> Seq<u8> {
    encode_utf8(text)
}

/// The greatest character boundary of `bytes` at or below `n`.
pub open spec fn boundary_at_or_below(bytes: Seq<u8>, n: nat) -> nat
    decreases n,
{
    if n == 0 || is_char_boundary(bytes, n as int) {
        n
    } else {
        boundary_at_or_below(bytes, (n - 1) as nat)
    }
}

/// The preview of `text` within `max_len` bytes: the text itself when it
/// fits, else its characters that end within the first `max_len` bytes
/// followed by "...".
pub open spec fn preview_of(text: Seq<char>, max_len: nat) -> Seq<char> {
    let bytes = utf8_bytes(text);
    if bytes.len() <= max_len {
        text
    } else {
        decode_utf8(bytes.take(boundary_at_or_below(bytes, max_len) as int)) + seq!['.', '.', '.']
    }
}

impl HistoryEntry {
    /// An entry for `text`, stamped with the current local time.
    pub fn new(text: String) -> (e: Self)
        ensures
            e.text == text,
            is_hms(e.timestamp@),
    {
        HistoryEntry { timestamp: local_clock_hms(), text }
    }

    /// The text, cut at the last character boundary within `max_len` bytes
    /// with "..." appended when longer.
    pub fn preview(&self, max_len: usize) -> (p: String)
        ensures
            p@ == preview_of(self.text@, max_len as nat),
    {
        let s = self.text.as_str();
        let ghost bytes = utf8_bytes(self.text@);
        assert(s.spec_bytes() == bytes);
        if s.as_bytes().len() <= max_len {
            let p = self.text.clone();
            assert(p@ == self.text@);
            p
        } else {
            proof {
                broadcast use vstd::utf8::encode_utf8_valid_utf8;

                vstd::utf8::is_char_boundary_start_end_of_seq(bytes);
            }
            let mut cut: usize = max_len;
            while !s.is_char_boundary(cut)
                invariant
                    cut <= max_len,
                    s.spec_bytes() == bytes,
                    is_char_boundary(bytes, 0),
                    boundary_at_or_below(bytes, cut as nat) == boundary_at_or_below(
                        bytes,
                        max_len as nat,
                    ),
                decreases cut,
            {
                cut = cut - 1;
            }
            let (head, _tail) = s.split_at(cut);
            let mut out = String::from_str(head);
            let dots = "...";
            proof {
                reveal_strlit("...");
                broadcast use vstd::utf8::encode_utf8_decode_utf8;

                assert(head@ == decode_utf8(encode_utf8(head@)));
                assert(bytes.take(cut as int) =~= bytes.subrange(0, cut as int));
            }
            out.append(dots);
            assert(dots@ =~= seq!['.', '.', '.']);
            assert(s@ == self.text@);
            assert(out@ == head@ + dots@);
            assert(head.spec_bytes() == bytes.take(cut as int));
            assert(out@ == preview_of(self.text@, max_len as nat));
            out
        }
    }
}

/// The history after adding `e` to `entries`: `e` goes first, and when that
/// makes one more than `max` entries, the oldest one is dropped.
pub open spec fn added(entries: Seq<HistoryEntry>, max: nat, e: HistoryEntry) -> Seq<HistoryEntry> {
    let ins = seq![e] + entries;
    if ins.len() > max {
        ins.drop_last()
    } else {
        ins
    }
}

/// Received messages, newest first, at most `max_entries` of them.
#[derive(Debug)]
pub struct History {
    entries: Vec<HistoryEntry>,
    max_entries: usize,
}

impl View for History {
    type V = Seq<HistoryEntry>;

    closed spec fn view(&self) -> Seq<HistoryEntry> {
        self.entries@
    }
}

impl History {
    /// A history never holds more entries than its bound.
    #[verifier::type_invariant]
    spec fn within_bound(self) -> bool {
        self.entries@.len() <= self.max_entries
    }

    /// The bound on the number of entries.
    pub closed spec fn capacity(&self) -> nat {
        self.max_entries as nat
    }

    /// An empty history that keeps at most 100 entries.
    pub fn new() -> (h: Self)
        ensures
            h@ == Seq::<HistoryEntry>::empty(),
            h.capacity() == 100,
    {
        Self::with_capacity(100)
    }

    /// An empty history that keeps at most `max` entries.
    pub fn with_capacity(max: usize) -> (h: Self)
        ensures
            h@ == Seq::<HistoryEntry>::empty(),
            h.capacity() == max,
    {
        History { entries: Vec::new(), max_entries: max }
    }

    /// Adds `text` as the newest entry, stamped with the current time; the
    /// oldest entry goes when the bound would be exceeded.
    pub fn add(&mut self, text: String)
        ensures
            final(self).capacity() == old(self).capacity(),
            final(self)@.len() <= final(self).capacity(),
            exists|e: HistoryEntry|
                e.text == text && is_hms(e.timestamp@) && final(self)@ == added(
                    old(self)@,
                    old(self).capacity(),
                    e,
                ),
    {
        proof {
            use_type_invariant(&*self);
        }
        let entry = HistoryEntry::new(text);
        let ghost e = entry;
        let mut entries: Vec<HistoryEntry> = Vec::new();
        std::mem::swap(&mut entries, &mut self.entries);
        entries.insert(0, entry);
        assert(entries@ =~= seq![e] + old(self).entries@);
        if entries.len() > self.max_entries {
            entries.pop();
            assert(entries@ =~= (seq![e] + old(self).entries@).drop_last());
        }
        self.entries = entries;
        assert(self@ == added(old(self)@, old(self).capacity(), e));
    }

    /// All entries, newest first.
    pub fn entries(&self) -> (r: &[HistoryEntry])
        ensures
            r@ == self@,
            r@.len() <= self.capacity(),
    {
        proof {
            use_type_invariant(self);
        }
        self.entries.as_slice()
    }

    /// The number of entries.
    pub fn len(&self) -> (n: usize)
        ensures
            n == self@.len(),
            n <= self.capacity(),
    {
        proof {
            use_type_invariant(self);
        }
        self.entries.len()
    }

    /// Whether there are no entries.
    pub fn is_empty(&self) -> (b: bool)
        ensures
            b == (self@.len() == 0),
    {
        self.entries.len() == 0
    }

    /// Removes every entry.
    pub fn clear(&mut self)
        ensures
            final(self)@ == Seq::<HistoryEntry>::empty(),
            final(self).capacity() == old(self).capacity(),
    {
        self.entries = Vec::new();
    }

    /// Removes the entry at `index`, if there is one.
    pub fn remove(&mut self, index: usize)
        ensures
            final(self)@ == if index < old(self)@.len() {
                old(self)@.remove(index as int)
            } else {
                old(self)@
            },
            final(self).capacity() == old(self).capacity(),
    {
        proof {
            use_type_invariant(&*self);
        }
        if index < self.entries.len() {
            let mut entries: Vec<HistoryEntry> = Vec::new();
            std::mem::swap(&mut entries, &mut self.entries);
            entries.remove(index);
            self.entries = entries;
        }
    }

    /// The entry at `index`, if there is one.
    pub fn get(&self, index: usize) -> (r: Option<&HistoryEntry>)
        ensures
            r == if index < self@.len() {
                Some(&self@[index as int])
            } else {
                None
            },
    {
        if index < self.entries.len() {
            Some(&self.entries[index])
        } else {
            None
        }
    }
}

impl Clone for History {
    /// A copy with the same bound and a clone of each entry.
    fn clone(&self) -> (h: Self)
        ensures
            h.capacity() == self.capacity(),
            h@.len() == self@.len(),
            forall|i: int| 0 <= i < self@.len() ==> cloned::<HistoryEntry>(self@[i], #[trigger] h@[i]),
    {
        proof {
            use_type_invariant(self);
        }
        History { entries: self.entries.clone(), max_entries: self.max_entries }
    }
}

impl Default for History {
    fn default() -> (h: Self)
        ensures
            h@ == Seq::<HistoryEntry>::empty(),
            h.capacity() == 100,
    {
        Self::new()
    }
}

/// Adding keeps a history within its bound.
pub proof fn lemma_add_keeps_bound(entries: Seq<HistoryEntry>, max: nat, e: HistoryEntry)
    requires
        entries.len() <= max,
    ensures
        added(entries, max, e).len() <= max,
{
}

/// The entry just added is the first one, unless the bound is zero.
pub proof fn lemma_add_puts_newest_first(entries: Seq<HistoryEntry>, max: nat, e: HistoryEntry)
    requires
        max > 0,
    ensures
        added(entries, max, e)[0] == e,
        added(entries, max, e).len() >= 1,
{
}

/// Adding shifts every older entry one place back; only one beyond the bound
/// is dropped.
pub proof fn lemma_add_shifts_older(entries: Seq<HistoryEntry>, max: nat, e: HistoryEntry, i: int)
    requires
        0 <= i < entries.len(),
        i + 1 < max,
    ensures
        added(entries, max, e)[i + 1] == entries[i],
{
}

} // verus!
