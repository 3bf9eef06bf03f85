//! Resident-memory samples.

use vstd::prelude::*;

use crate::text;

verus! {

/// Resident-memory samples around one benchmark phase.
#[derive(Debug, Clone, Copy, PartialEq, Eq, Structural)]
pub struct RssSample {
    /// Resident memory immediately before sampling starts.
    pub before_bytes: Option<u64>,
    /// Highest sampled resident memory while the phase runs.
    pub peak_bytes: Option<u64>,
    /// Resident memory after the phase completes.
    pub after_bytes: Option<u64>,
}

/// The difference, zero where it would be negative.
pub open spec fn excess(high: u64, low: u64) -> u64 {
    if high < low {
        0
    } else {
        (high - low) as u64
    }
}

impl RssSample {
    /// How far the peak rose above the start, where both are known.
    pub fn peak_delta(&self) -> (delta: Option<u64>)
        ensures
            delta == (match (self.before_bytes, self.peak_bytes) {
                (Some(before), Some(peak)) => Some(excess(peak, before)),
                _ => None,
            }),
    {
        match (self.before_bytes, self.peak_bytes) {
            (Some(before), Some(peak)) => Some(peak.saturating_sub(before)),
            _ => None,
        }
    }

    /// How much more memory is resident after the phase, where it is known.
    pub fn settled_delta(&self) -> (delta: Option<u64>)
        ensures
            delta == (match (self.before_bytes, self.after_bytes) {
                (Some(before), Some(after)) => Some(excess(after, before)),
                _ => None,
            }),
    {
        match (self.before_bytes, self.after_bytes) {
            (Some(before), Some(after)) => Some(after.saturating_sub(before)),
            _ => None,
        }
    }
}

/// The larger of a peak and a sample, where there is one.
pub open spec fn raised(peak: Option<u64>, sample: Option<u64>) -> Option<u64> {
    match (peak, sample) {
        (Some(high), Some(value)) => if value > high {
            sample
        } else {
            peak
        },
        (None, _) => sample,
        (_, None) => peak,
    }
}

/// Raise a peak to a sample.
pub fn raise_peak(peak: Option<u64>, sample: Option<u64>) -> (raised_peak: Option<u64>)
    ensures
        raised_peak == raised(peak, sample),
{
    match (peak, sample) {
        (Some(high), Some(value)) => if value > high {
            sample
        } else {
            peak
        },
        (None, _) => sample,
        (_, None) => peak,
    }
}

/// The text begins with another one.
pub open spec fn begins(text: Seq<char>, start: Seq<char>) -> bool {
    start.len() <= text.len() && text.take(start.len() as int) == start
}

/// The first line that begins with a label.
pub open spec fn labelled_line(lines: Seq<Seq<char>>, label: Seq<char>) -> Option<Seq<char>>
    decreases lines.len(),
{
    if lines.len() == 0 {
        None
    } else if begins(lines[0], label) {
        Some(lines[0])
    } else {
        labelled_line(lines.skip(1), label)
    }
}

/// The resident memory in bytes that a line of three words tells in kibibytes.
pub open spec fn line_bytes(line: Seq<char>) -> Option<u64> {
    let words = text::words(line);
    if words.len() >= 3 && words[0] == "VmRSS:"@ && words[2] == "kB"@ {
        match text::parsed(words[1], u64::MAX) {
            Ok(kibibytes) => if kibibytes * 1024 <= u64::MAX {
                Some((kibibytes * 1024) as u64)
            } else {
                None
            },
            Err(_) => None,
        }
    } else {
        None
    }
}

/// The resident memory in bytes that a process status tells.
pub open spec fn status_bytes(status: Seq<char>) -> Option<u64> {
    match labelled_line(text::lines(status), "VmRSS:"@) {
        Some(line) => line_bytes(line),
        None => None,
    }
}

/// Whether a text begins with another one.
fn starts_with(chars: &Vec<char>, start: &Vec<char>) -> (result: bool)
    ensures
        result == begins(chars@, start@),
{
    if start.len() > chars.len() {
        return false;
    }
    let head = text::part(chars, 0, start.len());
    assert(head@ =~= chars@.take(start@.len() as int));
    let mut index: usize = 0;
    while index < start.len()
        invariant
            index <= start@.len() == head@.len(),
            start@.len() <= chars@.len(),
            head@ == chars@.take(start@.len() as int),
            forall|i: int| 0 <= i < index ==> head@[i] == start@[i],
        decreases start@.len() - index,
    {
        if head[index] != start[index] {
            return false;
        }
        index = index + 1;
    }
    assert(head@ =~= start@);
    true
}

fn parse_line(line: &Vec<char>) -> (bytes: Option<u64>)
    ensures
        bytes == line_bytes(line@),
{
    let words = text::words_of(line);
    if words.len() < 3 {
        return None;
    }
    proof {
        assert(text::words(line@)[0] == words@[0]@);
        assert(text::words(line@)[1] == words@[1]@);
        assert(text::words(line@)[2] == words@[2]@);
    }
    if !text::spells(&words[0], "VmRSS:") || !text::spells(&words[2], "kB") {
        return None;
    }
    match text::parse_number(&words[1], u64::MAX) {
        Ok(kibibytes) => kibibytes.checked_mul(1024),
        Err(_) => None,
    }
}

/// The resident memory in bytes that a Linux process status tells.
pub fn parse_linux_vm_rss(status: &str) -> (bytes: Option<u64>)
    ensures
        bytes == status_bytes(status@),
{
    let lines = text::lines_of(&text::chars_of(status));
    let label = text::chars_of("VmRSS:");
    let ghost all = text::lines(status@);
    let mut index: usize = 0;
    assert(all.skip(0) =~= all);
    while index < lines.len()
        invariant
            index <= lines@.len(),
            all == text::lines(status@),
            all == text::views(lines@),
            label@ == "VmRSS:"@,
            labelled_line(all, label@) == labelled_line(all.skip(index as int), label@),
        decreases lines@.len() - index,
    {
        proof {
            assert(all.skip(index as int)[0] == lines@[index as int]@);
            assert(all.skip(index as int).skip(1) =~= all.skip(index + 1));
        }
        if starts_with(&lines[index], &label) {
            return parse_line(&lines[index]);
        }
        index = index + 1;
    }
    None
}

/// A peak is the largest of the samples that were there.
pub proof fn law_peaks_are_the_largest(peak: Option<u64>, sample: Option<u64>)
    ensures
        raised(peak, sample) is None == (peak is None && sample is None),
        raised(peak, sample) is Some ==> raised(peak, sample) == peak || raised(peak, sample)
            == sample,
        peak matches Some(high) ==> raised(peak, sample)->0 >= high,
        sample matches Some(value) ==> raised(peak, sample)->0 >= value,
{
}

/// What is in excess is the difference, and nothing where there is none.
pub proof fn law_excess(high: u64, low: u64)
    ensures
        high >= low ==> excess(high, low) == high - low,
        high <= low ==> excess(high, low) == 0,
{
}

} // verus!
