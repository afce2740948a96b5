//! Locating the start markers in a stream of characters.
//!
//! A marker is a run of pairwise different characters: four of them announce
//! a packet, fourteen a message. What is reported is the number of characters
//! read up to the end of the first such run.

use crate::text::chars_of;
use itertools::Itertools;
use vstd::prelude::*;

verus! {

/// Characters read before the first packet starts.
pub const PACKET_MARKER: usize = 4;

/// Characters read before the first message starts.
pub const MESSAGE_MARKER: usize = 14;

/// A stream with the positions at which its first packet and its first
/// message begin.
#[derive(Debug)]
pub struct Datastream {
    pub raw: &'static str,
    pub start_of_packet: usize,
    pub start_of_message: usize,
}

/// The `width` characters of `s` from position `i` on are pairwise different.
pub open spec fn marker_at(s: Seq<char>, i: int, width: int) -> bool {
    0 <= i && i + width <= s.len() && s.subrange(i, i + width).no_duplicates()
}

/// Position `i` holds the first marker of the given width.
pub open spec fn first_marker(s: Seq<char>, i: int, width: int) -> bool {
    marker_at(s, i, width) && forall|j: int| 0 <= j < i ==> !marker_at(s, j, width)
}

/// Whether the characters are pairwise different.
pub fn all_distinct(items: &[char]) -> (r: bool)
    ensures
        r == items@.no_duplicates(),
{
    let mut i: usize = 0;
    while i < items.len()
        invariant
            0 <= i <= items@.len(),
            forall|a: int, b: int| 0 <= a < i && a < b < items@.len() ==> items@[a] != items@[b],
        decreases items@.len() - i,
    {
        let mut j: usize = i + 1;
        while j < items.len()
            invariant
                0 <= i < j <= items@.len(),
                forall|b: int| i < b < j ==> items@[i as int] != items@[b],
            decreases items@.len() - j,
        {
            if items[i] == items[j] {
                return false;
            }
            j = j + 1;
        }
        i = i + 1;
    }
    assert forall|a: int, b: int|
        0 <= a < items@.len() && 0 <= b < items@.len() && a != b implies items@[a] != items@[b] by {
        if a < b {
        } else {
            assert(items@[b] != items@[a]);
        }
    }
    true
}

/// `Itertools::tuple_windows` on the characters: every run of four
/// neighbours, in order. There is one run for each position that has three
/// characters after it.
#[verifier::external_body]
fn windows_of_four(items: &Vec<char>) -> (r: Vec<(char, char, char, char)>)
    ensures
        r@.len() == if items@.len() >= 4 {
            items@.len() - 3
        } else {
            0
        },
        forall|i: int|
            0 <= i < r@.len() ==> #[trigger] r@[i] == (
                items@[i],
                items@[i + 1],
                items@[i + 2],
                items@[i + 3],
            ),
{
    items.iter().copied().tuple_windows().collect()
}

/// `Itertools::find_position` on the windows of the given width: the
/// position of the first window whose characters are pairwise different, or
/// `None` if there is no such window.
#[verifier::external_body]
fn first_distinct_window(items: &Vec<char>, width: usize) -> (r: Option<usize>)
    requires
        width > 0,
    ensures
        match r {
            Some(i) => first_marker(items@, i as int, width as int),
            None => forall|i: int| !marker_at(items@, i, width as int),
        },
{
    items.windows(width).find_position(|w| all_distinct(w)).map(|found| found.0)
}

/// Four characters are pairwise different exactly when they form a marker.
proof fn lemma_four(s: Seq<char>, i: int)
    requires
        0 <= i,
        i + 4 <= s.len(),
    ensures
        marker_at(s, i, 4) <==> (s[i] != s[i + 1] && s[i] != s[i + 2] && s[i] != s[i + 3] && s[i
            + 1] != s[i + 2] && s[i + 1] != s[i + 3] && s[i + 2] != s[i + 3]),
{
    let w = s.subrange(i, i + 4);
    assert(w[0] == s[i] && w[1] == s[i + 1] && w[2] == s[i + 2] && w[3] == s[i + 3]);
    if w.no_duplicates() {
        assert(w[0] != w[1] && w[0] != w[2] && w[0] != w[3]);
        assert(w[1] != w[2] && w[1] != w[3] && w[2] != w[3]);
    }
}

impl Datastream {
    /// The stream has a packet marker and a message marker.
    pub open spec fn has_markers(input: Seq<char>) -> bool {
        (exists|i: int| marker_at(input, i, PACKET_MARKER as int)) && (exists|i: int|
            marker_at(input, i, MESSAGE_MARKER as int))
    }

    /// The positions are those just behind the first marker of each kind.
    pub open spec fn located(&self) -> bool {
        &&& first_marker(self.raw@, self.start_of_packet - PACKET_MARKER, PACKET_MARKER as int)
        &&& first_marker(self.raw@, self.start_of_message - MESSAGE_MARKER, MESSAGE_MARKER as int)
    }

    /// Locates the first packet and the first message of the stream, or
    /// returns `None` if the stream lacks a marker of either kind.
    pub fn find(input: &'static str) -> (r: Option<Datastream>)
        ensures
            match r {
                Some(stream) => stream.raw@ == input@ && stream.located(),
                None => !Datastream::has_markers(input@),
            },
    {
        let chars = chars_of(input);
        let quads = windows_of_four(&chars);
        let total = chars.len();
        let mut k: usize = 0;
        let mut packet: Option<usize> = None;
        while k < quads.len() && packet.is_none()
            invariant
                0 <= k <= quads@.len(),
                chars@ == input@,
                total == chars@.len(),
                quads@.len() == if chars@.len() >= 4 {
                    chars@.len() - 3
                } else {
                    0
                },
                forall|i: int|
                    0 <= i < quads@.len() ==> #[trigger] quads@[i] == (
                        chars@[i],
                        chars@[i + 1],
                        chars@[i + 2],
                        chars@[i + 3],
                    ),
                forall|j: int| 0 <= j < k ==> !marker_at(chars@, j, 4),
                match packet {
                    Some(end) => end == k + 4 && marker_at(chars@, k as int, 4),
                    None => true,
                },
            decreases quads@.len() - k + (if packet is None { 1int } else { 0int }),
        {
            let (a, b, c, d) = quads[k];
            proof {
                lemma_four(chars@, k as int);
            }
            if a != b && a != c && a != d && b != c && b != d && c != d {
                packet = Some(k + 4);
            } else {
                k = k + 1;
            }
        }
        let Some(start_of_packet) = packet else {
            return None;
        };
        let Some(at) = first_distinct_window(&chars, MESSAGE_MARKER) else {
            return None;
        };
        Some(Datastream { raw: input, start_of_packet, start_of_message: at + MESSAGE_MARKER })
    }

    /// Locates the first packet and the first message of the stream.
    pub fn new(input: &'static str) -> (stream: Datastream)
        requires
            Datastream::has_markers(input@),
        ensures
            stream.raw@ == input@,
            stream.located(),
    {
        match Datastream::find(input) {
            Some(stream) => stream,
            None => Datastream { raw: input, start_of_packet: 0, start_of_message: 0 },
        }
    }
}

} // verus!
