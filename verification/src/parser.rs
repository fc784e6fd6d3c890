use vstd::prelude::*;

use crate::contents::{Contents, Event};
use crate::header::Header;
use crate::strutil::push_char;

verus! {


pub const CR: char = '\r';

pub const LF: char = '\n';

pub const NUMBERSIGN: char = '#';

pub const TILDE: char = '~';

pub const COLON: char = ':';

pub const VERTICAL: char = '|';

pub const PLUS: char = '+';

pub const SPACE: char = ' ';

pub const BACKSLASH: char = '\\';

/// The end-of-stream sentinel character.
pub const END: char = '\0';

pub open spec fn is_crlf_spec(c: char) -> bool {
    c == CR || c == LF
}

#[verifier::when_used_as_spec(is_crlf_spec)]
pub(crate) fn is_crlf(c: char) -> (r: bool)
    ensures
        r == is_crlf_spec(c),
{
    c == CR || c == LF
}

pub open spec fn is_hex_digit(c: char) -> bool {
    (48 <= c as u32 && c as u32 <= 57) || (97 <= c as u32 && c as u32 <= 102) || (65 <= c as u32
        && c as u32 <= 70)
}

/// Whether `c` is an ASCII hexadecimal digit.
pub(crate) fn is_hex(c: char) -> (r: bool)
    ensures
        r == is_hex_digit(c),
{
    let u = c as u32;
    (48 <= u && u <= 57) || (97 <= u && u <= 102) || (65 <= u && u <= 70)
}

/// The numeric value of a hexadecimal digit (0 for other characters).
pub open spec fn hex_digit_val(c: char) -> nat {
    if 48 <= c as u32 && c as u32 <= 57 {
        (c as u32 - 48) as nat
    } else if 97 <= c as u32 && c as u32 <= 102 {
        (c as u32 - 87) as nat
    } else if 65 <= c as u32 && c as u32 <= 70 {
        (c as u32 - 55) as nat
    } else {
        0
    }
}

pub(crate) fn hex_digit(c: char) -> (d: usize)
    ensures
        d == hex_digit_val(c),
        d < 16,
{
    let u = c as u32;
    if 48 <= u && u <= 57 {
        (u - 48) as usize
    } else if 97 <= u && u <= 102 {
        (u - 87) as usize
    } else if 65 <= u && u <= 70 {
        (u - 55) as usize
    } else {
        0
    }
}

/// The value of a run of hexadecimal digits, most significant first.
pub open spec fn hex_val(s: Seq<char>) -> nat
    decreases s.len(),
{
    if s.len() == 0 {
        0
    } else {
        hex_val(s.drop_last()) * 16 + hex_digit_val(s.last())
    }
}

pub open spec fn all_hex(s: Seq<char>) -> bool {
    forall|i: int| 0 <= i < s.len() ==> is_hex_digit(s[i])
}

/// The result of feeding one character to the newline normalizer: the new
/// pending state and the literal characters consumed as part of the newline
/// event that this character showed to be complete (empty if none was).
pub struct NlStep {
    pub has_cr: bool,
    pub has_lf: bool,
    pub cr_first: bool,
    pub out: Seq<char>,
}

/// A CR/LF pair completes as one two-character event in either order;
/// `cr_first` records which order while both characters are pending, and is
/// held false otherwise.  A completed event is reported when the character
/// after it arrives, so that the caller can examine that character first.
pub open spec fn nl_spec(has_cr: bool, has_lf: bool, cr_first: bool, c: char) -> NlStep {
    if has_cr && has_lf {
        let pair = if cr_first {
            seq![CR, LF]
        } else {
            seq![LF, CR]
        };
        if c == CR {
            NlStep { has_cr: true, has_lf: false, cr_first: false, out: pair }
        } else if c == LF {
            NlStep { has_cr: false, has_lf: true, cr_first: false, out: pair }
        } else {
            NlStep { has_cr: false, has_lf: false, cr_first: false, out: pair }
        }
    } else if has_cr {
        if c == CR {
            NlStep { has_cr: true, has_lf: false, cr_first: false, out: seq![CR] }
        } else if c == LF {
            NlStep { has_cr: true, has_lf: true, cr_first: true, out: Seq::empty() }
        } else {
            NlStep { has_cr: false, has_lf: false, cr_first: false, out: seq![CR] }
        }
    } else if has_lf {
        if c == CR {
            NlStep { has_cr: true, has_lf: true, cr_first: false, out: Seq::empty() }
        } else if c == LF {
            NlStep { has_cr: false, has_lf: true, cr_first: false, out: seq![LF] }
        } else {
            NlStep { has_cr: false, has_lf: false, cr_first: false, out: seq![LF] }
        }
    } else {
        if c == CR {
            NlStep { has_cr: true, has_lf: false, cr_first: false, out: Seq::empty() }
        } else if c == LF {
            NlStep { has_cr: false, has_lf: true, cr_first: false, out: Seq::empty() }
        } else {
            NlStep { has_cr: false, has_lf: false, cr_first: false, out: Seq::empty() }
        }
    }
}

/// Newline normalizer: tracks an expected partner character for CR and for
/// LF, so that CR, LF, CRLF and LFCR (and adjacent runs thereof) are each
/// recognized as one newline event, and reports the literal characters that
/// the completed event consumed, in the order they arrived.
pub(crate) struct NewLine {
    pub(crate) has_cr: bool,
    pub(crate) has_lf: bool,
    pub(crate) cr_first: bool,
}

impl NewLine {
    pub(crate) fn new() -> (n: NewLine)
        ensures
            !n.has_cr,
            !n.has_lf,
            !n.cr_first,
    {
        NewLine { has_cr: false, has_lf: false, cr_first: false }
    }

    pub(crate) fn accept(&mut self, c: char) -> (out: Vec<char>)
        ensures
            ({
                let s = nl_spec(old(self).has_cr, old(self).has_lf, old(self).cr_first, c);
                &&& final(self).has_cr == s.has_cr
                &&& final(self).has_lf == s.has_lf
                &&& final(self).cr_first == s.cr_first
                &&& out@ == s.out
            }),
    {
        let mut out: Vec<char> = Vec::new();
        let pair_cr_first = self.cr_first;
        self.cr_first = false;
        if self.has_cr && self.has_lf {
            if pair_cr_first {
                out.push(CR);
                out.push(LF);
            } else {
                out.push(LF);
                out.push(CR);
            }
            if c == CR {
                self.has_lf = false;
            } else if c == LF {
                self.has_cr = false;
            } else {
                self.has_cr = false;
                self.has_lf = false;
            }
        } else if self.has_cr {
            if c == CR {
                out.push(CR);
            } else if c == LF {
                self.has_lf = true;
                self.cr_first = true;
            } else {
                self.has_cr = false;
                out.push(CR);
            }
        } else if self.has_lf {
            if c == CR {
                self.has_cr = true;
            } else if c == LF {
                out.push(LF);
            } else {
                self.has_lf = false;
                out.push(LF);
            }
        } else if c == CR {
            self.has_cr = true;
        } else if c == LF {
            self.has_lf = true;
        }
        out
    }
}

/// Accumulates the header lines as the parser recognizes them.
pub(crate) struct HeaderParser {
    pub(crate) header: Header,
    pub(crate) line: String,
}

impl HeaderParser {
    pub(crate) fn new() -> (h: HeaderParser)
        ensures
            h.header.v@ == Seq::<String>::empty(),
            h.line@ == Seq::<char>::empty(),
    {
        HeaderParser { header: Header::new(), line: String::new() }
    }

    pub(crate) fn pre(&mut self)
        ensures
            final(self).header == old(self).header,
            final(self).line@ == Seq::<char>::empty(),
    {
        self.line = String::new();
    }

    pub(crate) fn accept(&mut self, c: char)
        ensures
            final(self).header == old(self).header,
            final(self).line@ == old(self).line@.push(c),
    {
        push_char(&mut self.line, c);
    }

    pub(crate) fn post(&mut self) -> (r: bool)
        ensures
            final(self).header.v@ == old(self).header.v@.push(old(self).line),
            final(self).header.v.deep_view() == old(self).header.v.deep_view().push(
                old(self).line@,
            ),
            final(self).line@ == Seq::<char>::empty(),
            r == true,
    {
        let s = self.line.clone();
        self.header.accept(s);
        self.line = String::new();
        proof {
            assert(self.header.v.deep_view() =~= old(self).header.v.deep_view().push(
                old(self).line@,
            ));
        }
        true
    }
}

/// The offset tracker: accumulates the hexadecimal digits of an entry's
/// depth offset, and on `post` accepts the offset only if it does not
/// exceed the depth made available so far.
pub(crate) struct Offset {
    pub(crate) available: usize,
    pub(crate) number: usize,
    pub(crate) digits: Vec<char>,
}

/// Whether `post` accepts a digit run, given the depth available so far:
/// the run must be a non-empty sequence of hexadecimal digits whose value
/// fits the machine word and does not exceed `avail`.
pub open spec fn offset_post_ok(digits: Seq<char>, avail: usize) -> bool {
    digits.len() > 0 && all_hex(digits) && hex_val(digits) <= usize::MAX && hex_val(digits)
        <= avail
}

/// The depth available after accepting offset `number`:
/// the maximum of the old value and `number + 1`, saturated at the largest
/// machine word.
pub open spec fn avail_after(avail: usize, number: usize) -> usize {
    if number >= avail {
        if number == usize::MAX {
            usize::MAX
        } else {
            (number + 1) as usize
        }
    } else {
        avail
    }
}

impl Offset {
    pub(crate) fn new() -> (o: Offset)
        ensures
            o.available == 0,
            o.number == 0,
            o.digits@ == Seq::<char>::empty(),
    {
        Offset { available: 0, number: 0, digits: Vec::new() }
    }

    pub(crate) fn pre(&mut self)
        ensures
            final(self).available == old(self).available,
            final(self).number == old(self).number,
            final(self).digits@ == Seq::<char>::empty(),
    {
        self.digits.clear();
    }

    pub(crate) fn accept(&mut self, c: char)
        ensures
            final(self).available == old(self).available,
            final(self).number == old(self).number,
            final(self).digits@ == old(self).digits@.push(c),
    {
        self.digits.push(c);
    }

    /// Parse the accumulated digits; on success record the offset value and
    /// raise the available depth.  On failure (malformed digits, overflow,
    /// or a value above the available depth) the available depth is kept.
    pub(crate) fn post(&mut self) -> (r: bool)
        ensures
            r == offset_post_ok(old(self).digits@, old(self).available),
            final(self).digits@ == old(self).digits@,
            ({
                let parses = old(self).digits@.len() > 0 && all_hex(old(self).digits@) && hex_val(
                    old(self).digits@,
                ) <= usize::MAX;
                if parses {
                    final(self).number == hex_val(old(self).digits@) && final(self).available == (
                    if r {
                        avail_after(old(self).available, final(self).number)
                    } else {
                        old(self).available
                    })
                } else {
                    final(self).number == old(self).number && final(self).available == old(
                        self,
                    ).available
                }
            }),
    {
        if self.digits.len() == 0 {
            return false;
        }
        let mut acc: usize = 0;
        let mut overflow = false;
        let mut good = true;
        let mut i: usize = 0;
        while i < self.digits.len()
            invariant
                0 <= i <= self.digits@.len(),
                *self == *old(self),
                self.digits@.len() > 0,
                good == all_hex(self.digits@.take(i as int)),
                good && !overflow ==> acc as nat == hex_val(self.digits@.take(i as int)),
                good && overflow ==> hex_val(self.digits@.take(i as int)) > usize::MAX,
            decreases self.digits@.len() - i,
        {
            let c = self.digits[i];
            proof {
                assert(self.digits@.take(i + 1).drop_last() =~= self.digits@.take(i as int));
                assert(self.digits@.take(i + 1).last() == self.digits@[i as int]);
            }
            if !is_hex(c) {
                good = false;
            } else if good && !overflow {
                let d = hex_digit(c);
                match acc.checked_mul(16) {
                    Some(m) => match m.checked_add(d) {
                        Some(s2) => {
                            acc = s2;
                        },
                        None => {
                            overflow = true;
                        },
                    },
                    None => {
                        overflow = true;
                    },
                }
            }
            i += 1;
        }
        proof {
            assert(self.digits@.take(i as int) =~= self.digits@);
        }
        if !good {
            return false;
        }
        if overflow {
            return false;
        }
        self.number = acc;
        if acc > self.available {
            return false;
        }
        if self.number >= self.available {
            if self.number == usize::MAX {
                self.available = usize::MAX;
            } else {
                self.available = self.number + 1;
            }
        }
        true
    }
}

/// The named states of the event parser.
#[derive(Clone, Copy)]
pub enum PState {
    PreHeader,
    Header,
    HeaderNewLine,
    PreOffset,
    Offset,
    OffsetError,
    OffsetNewLine,
    PreKey,
    Key,
    KeyBackslash,
    KeyError,
    PreText,
    Text,
    TextNewLine,
    TextMore,
    TextMoreError,
}

/// The parser's own state, as the contracts speak of it: the current state
/// tag, the row and column counters, the newline normalizer's flags, the
/// header accumulators, and the offset tracker.
pub ghost struct PModel {
    pub state: PState,
    pub n: usize,
    pub row: usize,
    pub has_cr: bool,
    pub has_lf: bool,
    pub cr_first: bool,
    pub header_line: Seq<char>,
    pub headers: Seq<Seq<char>>,
    pub avail: usize,
    pub number: usize,
    pub digits: Seq<char>,
}

/// One dispatch step: the parser's state afterwards, the events emitted,
/// and whether the same character is reprocessed in the new state.
pub ghost struct StepRes {
    pub m: PModel,
    pub evs: Seq<Event>,
    pub again: bool,
}

pub open spec fn init_model() -> PModel {
    PModel {
        state: PState::PreHeader,
        n: 0,
        row: 1,
        has_cr: false,
        has_lf: false,
        cr_first: false,
        header_line: Seq::empty(),
        headers: Seq::empty(),
        avail: 0,
        number: 0,
        digits: Seq::empty(),
    }
}

pub open spec fn inc_sat(x: usize) -> usize {
    if x == usize::MAX {
        usize::MAX
    } else {
        (x + 1) as usize
    }
}

pub open spec fn err_ev(m: PModel) -> Event {
    Event::SyntaxError { row: m.row, col: m.n }
}

/// Feed `c` to the newline normalizer; on a completed newline event advance
/// the row counter and reset the column counter.
pub open spec fn nl_apply(m: PModel, c: char) -> (PModel, Seq<char>) {
    let s = nl_spec(m.has_cr, m.has_lf, m.cr_first, c);
    let m1 = PModel { has_cr: s.has_cr, has_lf: s.has_lf, cr_first: s.cr_first, ..m };
    if s.out.len() > 0 {
        (PModel { row: inc_sat(m1.row), n: 0, ..m1 }, s.out)
    } else {
        (m1, s.out)
    }
}

pub open spec fn char_ev(c: char) -> Event {
    Event::TextChar { c }
}

/// The text-character events for re-emitting a newline event's literal
/// characters into a continued text body.
pub open spec fn text_evs(s: Seq<char>) -> Seq<Event> {
    Seq::new(s.len(), |i: int| char_ev(s[i]))
}

pub(crate) proof fn lemma_text_evs_snoc(s: Seq<char>, i: int)
    requires
        0 <= i < s.len(),
    ensures
        text_evs(s.take(i + 1)) == text_evs(s.take(i)).push(char_ev(s[i])),
{
    let a = text_evs(s.take(i + 1));
    let b = text_evs(s.take(i)).push(char_ev(s[i]));
    assert(s.take(i).len() == i);
    assert(s.take(i + 1).len() == i + 1);
    assert(a.len() == i + 1);
    assert(b.len() == i + 1);
    assert forall|j: int| 0 <= j < i + 1 implies a[j] == b[j] by {
        assert(s.take(i + 1)[j] == s[j]);
        assert(a[j] == char_ev(s[j]));
        if j < i {
            assert(s.take(i)[j] == s[j]);
            assert(b[j] == text_evs(s.take(i))[j]);
            assert(text_evs(s.take(i))[j] == char_ev(s.take(i)[j]));
        } else {
            assert(b[j] == char_ev(s[i]));
        }
    }
    assert(a =~= b);
}

pub open spec fn spec_pre_header(m: PModel, c: char) -> StepRes {
    let m0 = PModel { header_line: Seq::empty(), ..m };
    if c == NUMBERSIGN {
        StepRes { m: PModel { state: PState::Header, ..m0 }, evs: Seq::empty(), again: false }
    } else if is_crlf_spec(c) {
        StepRes { m: m0, evs: Seq::empty().push(err_ev(m0)), again: false }
    } else {
        StepRes { m: PModel { state: PState::PreOffset, ..m0 }, evs: Seq::empty(), again: true }
    }
}

pub open spec fn spec_header(m: PModel, c: char) -> StepRes {
    if c == NUMBERSIGN {
        StepRes { m, evs: Seq::empty(), again: false }
    } else if is_crlf_spec(c) {
        StepRes {
            m: PModel {
                headers: m.headers.push(m.header_line),
                header_line: Seq::empty(),
                state: PState::HeaderNewLine,
                ..m
            },
            evs: Seq::empty(),
            again: true,
        }
    } else if c == END {
        StepRes { m: init_model(), evs: Seq::empty(), again: false }
    } else {
        StepRes { m: PModel { header_line: m.header_line.push(c), ..m }, evs: Seq::empty(), again: false }
    }
}

pub open spec fn spec_header_new_line(m: PModel, c: char) -> StepRes {
    let (m1, out) = nl_apply(m, c);
    if is_crlf_spec(c) {
        StepRes { m: m1, evs: Seq::empty(), again: false }
    } else {
        StepRes { m: PModel { state: PState::PreHeader, ..m1 }, evs: Seq::empty(), again: true }
    }
}

pub open spec fn spec_pre_offset(m: PModel, c: char) -> StepRes {
    let m0 = PModel { digits: Seq::empty(), ..m };
    if is_hex_digit(c) {
        StepRes { m: PModel { state: PState::Offset, ..m0 }, evs: Seq::empty(), again: true }
    } else if is_crlf_spec(c) {
        StepRes { m: PModel { state: PState::OffsetNewLine, ..m0 }, evs: Seq::empty(), again: true }
    } else if c == END {
        StepRes { m: init_model(), evs: Seq::empty(), again: false }
    } else {
        StepRes {
            m: PModel { state: PState::OffsetError, ..m0 },
            evs: Seq::empty().push(err_ev(m0)),
            again: false,
        }
    }
}

pub open spec fn spec_offset(m: PModel, c: char) -> StepRes {
    if is_hex_digit(c) {
        StepRes { m: PModel { digits: m.digits.push(c), ..m }, evs: Seq::empty(), again: false }
    } else if c == TILDE {
        let parses = m.digits.len() > 0 && all_hex(m.digits) && hex_val(m.digits) <= usize::MAX;
        let ok = offset_post_ok(m.digits, m.avail);
        let num1 = if parses {
            hex_val(m.digits) as usize
        } else {
            m.number
        };
        let av1 = if ok {
            avail_after(m.avail, num1)
        } else {
            m.avail
        };
        let mp = PModel { number: num1, avail: av1, ..m };
        if ok {
            StepRes { m: PModel { state: PState::PreKey, ..mp }, evs: Seq::empty(), again: false }
        } else {
            StepRes {
                m: PModel { state: PState::OffsetError, ..mp },
                evs: Seq::empty().push(err_ev(mp)),
                again: false,
            }
        }
    } else if is_crlf_spec(c) {
        StepRes {
            m: PModel { state: PState::OffsetNewLine, ..m },
            evs: Seq::empty().push(err_ev(m)),
            again: true,
        }
    } else if c == END {
        StepRes { m: init_model(), evs: Seq::empty(), again: false }
    } else {
        StepRes {
            m: PModel { state: PState::OffsetError, ..m },
            evs: Seq::empty().push(err_ev(m)),
            again: false,
        }
    }
}

pub open spec fn spec_offset_error(m: PModel, c: char) -> StepRes {
    if is_crlf_spec(c) {
        StepRes { m: PModel { state: PState::OffsetNewLine, ..m }, evs: Seq::empty(), again: true }
    } else if c == END {
        StepRes { m: init_model(), evs: Seq::empty(), again: false }
    } else {
        StepRes { m, evs: Seq::empty(), again: false }
    }
}

pub open spec fn spec_offset_new_line(m: PModel, c: char) -> StepRes {
    let (m1, out) = nl_apply(m, c);
    if is_crlf_spec(c) {
        StepRes { m: m1, evs: Seq::empty(), again: false }
    } else {
        StepRes { m: PModel { state: PState::PreOffset, ..m1 }, evs: Seq::empty(), again: true }
    }
}

pub open spec fn spec_pre_key(m: PModel, c: char) -> StepRes {
    let evs0 = Seq::empty().push(Event::BeginKey { offset: m.number });
    if c == COLON {
        StepRes { m: PModel { state: PState::KeyError, ..m }, evs: evs0.push(err_ev(m)), again: false }
    } else if is_crlf_spec(c) {
        StepRes {
            m: PModel { state: PState::OffsetNewLine, ..m },
            evs: evs0.push(err_ev(m)),
            again: true,
        }
    } else {
        StepRes { m: PModel { state: PState::Key, ..m }, evs: evs0, again: true }
    }
}

pub open spec fn spec_key(m: PModel, c: char) -> StepRes {
    if c == COLON {
        StepRes {
            m: PModel { state: PState::PreText, ..m },
            evs: Seq::empty().push(Event::EndKey),
            again: false,
        }
    } else if c == BACKSLASH {
        StepRes { m: PModel { state: PState::KeyBackslash, ..m }, evs: Seq::empty(), again: false }
    } else if is_crlf_spec(c) {
        StepRes {
            m: PModel { state: PState::OffsetNewLine, ..m },
            evs: Seq::empty().push(Event::EndKey).push(Event::EndText),
            again: true,
        }
    } else if c == END {
        StepRes {
            m: init_model(),
            evs: Seq::empty().push(Event::EndKey).push(Event::EndText),
            again: false,
        }
    } else {
        StepRes { m, evs: Seq::empty().push(Event::KeyChar { c }), again: false }
    }
}

/// The key-escape step: the escaped character joins the key literally,
/// even when it is `:` or `\`; a newline (or the end-of-stream sentinel)
/// cancels the escape instead and is reprocessed by the key state as
/// abnormal key termination, never taken as a literal key character.
pub open spec fn spec_key_backslash(m: PModel, c: char) -> StepRes {
    if is_crlf_spec(c) || c == END {
        StepRes { m: PModel { state: PState::Key, ..m }, evs: Seq::empty(), again: true }
    } else {
        StepRes {
            m: PModel { state: PState::Key, ..m },
            evs: Seq::empty().push(Event::KeyChar { c }),
            again: false,
        }
    }
}

pub open spec fn spec_key_error(m: PModel, c: char) -> StepRes {
    if is_crlf_spec(c) {
        StepRes { m: PModel { state: PState::PreOffset, ..m }, evs: Seq::empty(), again: true }
    } else if c == END {
        StepRes { m: init_model(), evs: Seq::empty(), again: false }
    } else {
        StepRes { m, evs: Seq::empty(), again: false }
    }
}

pub open spec fn spec_pre_text(m: PModel, c: char) -> StepRes {
    let evs0 = Seq::empty().push(Event::BeginText);
    if is_crlf_spec(c) {
        StepRes { m: PModel { state: PState::TextNewLine, ..m }, evs: evs0, again: true }
    } else {
        StepRes { m: PModel { state: PState::Text, ..m }, evs: evs0, again: true }
    }
}

pub open spec fn spec_text(m: PModel, c: char) -> StepRes {
    if is_crlf_spec(c) {
        StepRes { m: PModel { state: PState::TextNewLine, ..m }, evs: Seq::empty(), again: true }
    } else if c == END {
        StepRes { m: PModel { state: PState::TextNewLine, ..m }, evs: Seq::empty(), again: true }
    } else {
        StepRes { m, evs: Seq::empty().push(Event::TextChar { c }), again: false }
    }
}

pub open spec fn spec_text_new_line(m: PModel, c: char) -> StepRes {
    if c == SPACE {
        StepRes { m, evs: Seq::empty(), again: false }
    } else {
        let (m1, out) = nl_apply(m, c);
        if out.len() == 0 && is_crlf_spec(c) {
            StepRes { m: m1, evs: Seq::empty(), again: false }
        } else {
            let evs1 = if out.len() > 0 && c == VERTICAL {
                text_evs(out)
            } else {
                Seq::empty()
            };
            if c == VERTICAL || c == PLUS {
                StepRes { m: PModel { state: PState::TextMore, ..m1 }, evs: evs1, again: true }
            } else {
                let evs2 = evs1.push(Event::EndText);
                if c == END {
                    StepRes { m: init_model(), evs: evs2, again: false }
                } else if is_crlf_spec(c) {
                    // the newline was consumed by this state's normalizer
                    // call, so it is not reprocessed as a line start
                    StepRes {
                        m: PModel { state: PState::OffsetNewLine, ..m1 },
                        evs: evs2,
                        again: false,
                    }
                } else {
                    StepRes { m: PModel { state: PState::PreOffset, ..m1 }, evs: evs2, again: true }
                }
            }
        }
    }
}

pub open spec fn spec_text_more(m: PModel, c: char) -> StepRes {
    if c == VERTICAL {
        StepRes { m: PModel { state: PState::Text, ..m }, evs: Seq::empty(), again: false }
    } else if c == PLUS {
        StepRes {
            m: PModel { state: PState::Text, ..m },
            evs: Seq::empty().push(Event::NextArraySlot),
            again: false,
        }
    } else if c == END {
        StepRes { m: init_model(), evs: Seq::empty().push(Event::EndText), again: false }
    } else if is_crlf_spec(c) {
        StepRes {
            m: PModel { state: PState::TextNewLine, ..m },
            evs: Seq::empty().push(err_ev(m)),
            again: true,
        }
    } else {
        StepRes {
            m: PModel { state: PState::TextMoreError, ..m },
            evs: Seq::empty().push(err_ev(m)),
            again: false,
        }
    }
}

pub open spec fn spec_text_more_error(m: PModel, c: char) -> StepRes {
    if is_crlf_spec(c) {
        StepRes { m: PModel { state: PState::TextNewLine, ..m }, evs: Seq::empty(), again: true }
    } else if c == END {
        StepRes { m: init_model(), evs: Seq::empty().push(Event::EndText), again: false }
    } else {
        StepRes { m, evs: Seq::empty(), again: false }
    }
}

/// One dispatch of the state machine on one character.
pub open spec fn spec_step_once(m: PModel, c: char) -> StepRes {
    match m.state {
        PState::PreHeader => spec_pre_header(m, c),
        PState::Header => spec_header(m, c),
        PState::HeaderNewLine => spec_header_new_line(m, c),
        PState::PreOffset => spec_pre_offset(m, c),
        PState::Offset => spec_offset(m, c),
        PState::OffsetError => spec_offset_error(m, c),
        PState::OffsetNewLine => spec_offset_new_line(m, c),
        PState::PreKey => spec_pre_key(m, c),
        PState::Key => spec_key(m, c),
        PState::KeyBackslash => spec_key_backslash(m, c),
        PState::KeyError => spec_key_error(m, c),
        PState::PreText => spec_pre_text(m, c),
        PState::Text => spec_text(m, c),
        PState::TextNewLine => spec_text_new_line(m, c),
        PState::TextMore => spec_text_more(m, c),
        PState::TextMoreError => spec_text_more_error(m, c),
    }
}

/// A bound on how many reprocessing steps one character can cause: every
/// reprocessing dispatch strictly lowers this rank.
pub open spec fn rank(s: PState, c: char) -> nat {
    if is_crlf_spec(c) {
        match s {
            PState::PreText => 5,
            PState::Text => 5,
            PState::TextMore => 5,
            PState::TextMoreError => 5,
            PState::TextNewLine => 4,
            PState::KeyBackslash => 4,
            PState::KeyError => 4,
            PState::PreHeader => 3,
            PState::Header => 3,
            PState::PreOffset => 3,
            PState::Offset => 3,
            PState::OffsetError => 3,
            PState::PreKey => 3,
            PState::Key => 3,
            PState::OffsetNewLine => 2,
            PState::HeaderNewLine => 2,
        }
    } else {
        match s {
            PState::PreText => 7,
            PState::Text => 6,
            PState::HeaderNewLine => 6,
            PState::TextNewLine => 5,
            PState::PreHeader => 4,
            PState::OffsetNewLine => 4,
            PState::PreKey => 4,
            PState::KeyBackslash => 4,
            PState::PreOffset => 3,
            PState::Key => 3,
            PState::Offset => 2,
            PState::TextMore => 2,
            PState::Header => 1,
            PState::OffsetError => 1,
            PState::KeyError => 1,
            PState::TextMoreError => 1,
        }
    }
}

pub(crate) proof fn lemma_rank_decreases(m: PModel, c: char)
    ensures
        spec_step_once(m, c).again ==> rank(spec_step_once(m, c).m.state, c) < rank(m.state, c),
{
}

/// Iterated dispatch: keep reprocessing the character while a step asks for
/// it, collecting the events of every step.  `fuel` bounds the iteration;
/// the rank above shows that a fuel of 10 is never exhausted.
pub open spec fn spec_steps(m: PModel, c: char, fuel: nat) -> StepRes
    decreases fuel,
{
    let s = spec_step_once(m, c);
    if s.again && fuel > 0 {
        let s2 = spec_steps(s.m, c, (fuel - 1) as nat);
        StepRes { m: s2.m, evs: s.evs + s2.evs, again: false }
    } else {
        StepRes { m: s.m, evs: s.evs, again: false }
    }
}

/// What one call of `accept` does to the parser's state, and the events it
/// hands the consumer: advance the column counter, then dispatch until the
/// character is fully consumed.
pub open spec fn spec_accept(m: PModel, c: char) -> StepRes {
    spec_steps(PModel { n: inc_sat(m.n), ..m }, c, 10)
}

pub open spec fn max2(a: int, b: int) -> int {
    if a >= b {
        a
    } else {
        b
    }
}

/// The depth offset an entry begins with, or -1 for any other event.
pub open spec fn begin_offset(ev: Event) -> int {
    match ev {
        Event::BeginKey { offset } => offset as int,
        _ => -1,
    }
}

/// The greatest offset of the begin-key events so far, or -1 before any.
pub open spec fn max_begin_offset(evs: Seq<Event>) -> int
    decreases evs.len(),
{
    if evs.len() == 0 {
        -1
    } else {
        max2(max_begin_offset(evs.drop_last()), begin_offset(evs.last()))
    }
}

/// Monotonic depth availability over an event stream: every entry's offset
/// is at most one more than the greatest offset begun before it; in
/// particular the first entry's offset is 0.
pub open spec fn offsets_monotonic(evs: Seq<Event>) -> bool {
    forall|i: int|
        0 <= i < evs.len() && (#[trigger] evs[i]) is BeginKey ==> begin_offset(evs[i])
            <= max_begin_offset(evs.take(i)) + 1
}

/// The inductive invariant behind the law: the available depth never
/// exceeds one more than the greatest offset begun so far, except while an
/// accepted offset is about to be begun, where it is bounded by that offset
/// as well.
pub open spec fn p1_inv(m: PModel, evs: Seq<Event>) -> bool {
    &&& offsets_monotonic(evs)
    &&& m.state is PreKey ==> m.number <= max_begin_offset(evs) + 1 && m.avail <= max2(
        max_begin_offset(evs),
        m.number as int,
    ) + 1
    &&& !(m.state is PreKey) ==> m.avail <= max_begin_offset(evs) + 1
}

pub proof fn lemma_max_lb(evs: Seq<Event>)
    ensures
        max_begin_offset(evs) >= -1,
    decreases evs.len(),
{
    if evs.len() > 0 {
        lemma_max_lb(evs.drop_last());
    }
}

/// Appending events that begin no entry changes neither the law nor the
/// greatest offset.
pub proof fn lemma_mono_append_non_bk(evs: Seq<Event>, evs2: Seq<Event>)
    requires
        offsets_monotonic(evs),
        forall|j: int| 0 <= j < evs2.len() ==> !((#[trigger] evs2[j]) is BeginKey),
    ensures
        offsets_monotonic(evs + evs2),
        max_begin_offset(evs + evs2) == max_begin_offset(evs),
    decreases evs2.len(),
{
    lemma_max_lb(evs);
    if evs2.len() == 0 {
        assert(evs + evs2 =~= evs);
    } else {
        lemma_mono_append_non_bk(evs, evs2.drop_last());
        let e2 = evs + evs2;
        assert(e2.drop_last() =~= evs + evs2.drop_last());
        assert(e2.last() == evs2.last());
        assert(!(evs2.last() is BeginKey));
        lemma_max_lb(evs + evs2.drop_last());
        assert(max_begin_offset(e2) == max_begin_offset(evs));
        assert forall|i: int|
            0 <= i < e2.len() && (#[trigger] e2[i]) is BeginKey implies begin_offset(e2[i])
            <= max_begin_offset(e2.take(i)) + 1 by {
            assert(e2.take(i) =~= (evs + evs2.drop_last()).take(i));
            assert(e2[i] == (evs + evs2.drop_last())[i]);
        }
    }
}

/// Beginning an entry whose offset obeys the law keeps the law, and raises
/// the greatest offset to at most that offset.
pub proof fn lemma_mono_push_bk(evs: Seq<Event>, o: usize)
    requires
        offsets_monotonic(evs),
        o <= max_begin_offset(evs) + 1,
    ensures
        offsets_monotonic(evs.push(Event::BeginKey { offset: o })),
        max_begin_offset(evs.push(Event::BeginKey { offset: o })) == max2(
            max_begin_offset(evs),
            o as int,
        ),
{
    let e2 = evs.push(Event::BeginKey { offset: o });
    assert(e2.drop_last() =~= evs);
    assert forall|i: int|
        0 <= i < e2.len() && (#[trigger] e2[i]) is BeginKey implies begin_offset(e2[i])
        <= max_begin_offset(e2.take(i)) + 1 by {
        if i < evs.len() {
            assert(e2.take(i) =~= evs.take(i));
            assert(e2[i] == evs[i]);
        } else {
            assert(e2.take(i) =~= evs);
        }
    }
}

/// One dispatch step preserves the law's invariant.
#[verifier::rlimit(50)]
pub proof fn lemma_step_once_p1(m: PModel, c: char, evs: Seq<Event>)
    requires
        p1_inv(m, evs),
    ensures
        p1_inv(spec_step_once(m, c).m, evs + spec_step_once(m, c).evs),
{
    let s = spec_step_once(m, c);
    lemma_max_lb(evs);
    if m.state is PreKey {
        let bk = Event::BeginKey { offset: m.number };
        lemma_mono_push_bk(evs, m.number);
        if c == COLON || is_crlf_spec(c) {
            assert(s.evs =~= Seq::empty().push(bk).push(err_ev(m)));
            assert(evs + s.evs =~= evs.push(bk).push(err_ev(m)));
            assert(evs.push(bk).push(err_ev(m)) =~= evs.push(bk) + seq![err_ev(m)]);
            lemma_mono_append_non_bk(evs.push(bk), seq![err_ev(m)]);
        } else {
            assert(evs + s.evs =~= evs.push(bk));
        }
    } else if m.state is Offset && c == TILDE {
        assert forall|j: int| 0 <= j < s.evs.len() implies !((#[trigger] s.evs[j]) is BeginKey) by {}
        lemma_mono_append_non_bk(evs, s.evs);
        let parses = m.digits.len() > 0 && all_hex(m.digits) && hex_val(m.digits) <= usize::MAX;
        let ok = offset_post_ok(m.digits, m.avail);
        if ok {
            let num1 = hex_val(m.digits) as usize;
            assert(num1 <= m.avail);
            assert(s.m.number == num1);
            assert(s.m.avail == avail_after(m.avail, num1));
            assert(s.m.number <= max_begin_offset(evs + s.evs) + 1);
            assert(s.m.avail <= max2(max_begin_offset(evs + s.evs), s.m.number as int) + 1);
        }
    } else {
        assert forall|j: int| 0 <= j < s.evs.len() implies !((#[trigger] s.evs[j]) is BeginKey) by {
            if m.state is TextNewLine {
                assert(s.evs[j] is TextChar || s.evs[j] is EndText || s.evs[j] is SyntaxError);
            }
        }
        lemma_mono_append_non_bk(evs, s.evs);
        assert(!(s.m.state is PreKey));
        assert(s.m.avail == m.avail || s.m.avail == 0);
    }
}

/// Iterated dispatch preserves the law's invariant.
pub proof fn lemma_steps_p1(m: PModel, c: char, evs: Seq<Event>, fuel: nat)
    requires
        p1_inv(m, evs),
    ensures
        p1_inv(spec_steps(m, c, fuel).m, evs + spec_steps(m, c, fuel).evs),
    decreases fuel,
{
    let s = spec_step_once(m, c);
    lemma_step_once_p1(m, c, evs);
    if s.again && fuel > 0 {
        lemma_steps_p1(s.m, c, evs + s.evs, (fuel - 1) as nat);
        let s2 = spec_steps(s.m, c, (fuel - 1) as nat);
        assert((evs + s.evs) + s2.evs =~= evs + (s.evs + s2.evs));
    }
}

/// One accepted character preserves the law's invariant.
pub proof fn lemma_accept_p1(m: PModel, c: char, evs: Seq<Event>)
    requires
        p1_inv(m, evs),
    ensures
        p1_inv(spec_accept(m, c).m, evs + spec_accept(m, c).evs),
{
    let m1 = PModel { n: inc_sat(m.n), ..m };
    assert(p1_inv(m1, evs));
    lemma_steps_p1(m1, c, evs, 10);
}

/// The event parser: consumes one character at a time and drives the named
/// states, handing structured callbacks to its consumer.  Feeding the
/// end-of-stream sentinel finalizes the current entry and resets the
/// parser, which may then be reused.
pub(crate) struct Parser<T: Contents> {
    pub(crate) n: usize,
    pub(crate) row: usize,
    pub(crate) state: PState,
    pub(crate) new_line: NewLine,
    pub(crate) header_parser: HeaderParser,
    pub(crate) offset: Offset,
    pub(crate) contents: T,
}

impl<T: Contents> Parser<T> {
    pub(crate) open spec fn model(&self) -> PModel {
        PModel {
            state: self.state,
            n: self.n,
            row: self.row,
            has_cr: self.new_line.has_cr,
            has_lf: self.new_line.has_lf,
            cr_first: self.new_line.cr_first,
            header_line: self.header_parser.line@,
            headers: self.header_parser.header.v.deep_view(),
            avail: self.offset.available,
            number: self.offset.number,
            digits: self.offset.digits@,
        }
    }

    pub(crate) open spec fn events(&self) -> Seq<Event> {
        self.contents.events()
    }

    pub(crate) fn new(contents: T) -> (p: Self)
        ensures
            p.model() == init_model(),
            p.contents == contents,
    {
        let p = Parser {
            n: 0,
            row: 1,
            state: PState::PreHeader,
            new_line: NewLine::new(),
            header_parser: HeaderParser::new(),
            offset: Offset::new(),
            contents,
        };
        proof {
            assert(p.header_parser.header.v.deep_view() =~= Seq::<Seq<char>>::empty());
        }
        p
    }

    pub(crate) fn reset(&mut self)
        ensures
            final(self).model() == init_model(),
            final(self).contents == old(self).contents,
    {
        self.n = 0;
        self.row = 1;
        self.state = PState::PreHeader;
        self.new_line = NewLine::new();
        self.header_parser = HeaderParser::new();
        self.offset = Offset::new();
        proof {
            assert(self.header_parser.header.v.deep_view() =~= Seq::<Seq<char>>::empty());
        }
    }

    /// Hand back the consumer.
    pub(crate) fn contents(self) -> (r: T)
        ensures
            r == self.contents,
    {
        self.contents
    }

    fn error(&mut self)
        requires
            old(self).contents.inv(),
        ensures
            final(self).contents.inv(),
            final(self).model() == old(self).model(),
            final(self).contents.events() == old(self).contents.events().push(
                err_ev(old(self).model()),
            ),
    {
        self.contents.error(self.row, self.n);
    }

    fn accept_pre_header(&mut self, c: char) -> (again: bool)
        requires
            old(self).contents.inv(),
        ensures
            final(self).contents.inv(),
            ({
                let s = spec_pre_header(old(self).model(), c);
                final(self).model() == s.m && final(self).contents.events() == old(
                    self,
                ).contents.events() + s.evs && again == s.again
            }),
    {
        self.header_parser.pre();
        if c == NUMBERSIGN {
            self.state = PState::Header;
            false
        } else if is_crlf(c) {
            self.error();
            false
        } else {
            self.state = PState::PreOffset;
            true
        }
    }

    fn accept_header(&mut self, c: char) -> (again: bool)
        requires
            old(self).contents.inv(),
        ensures
            final(self).contents.inv(),
            ({
                let s = spec_header(old(self).model(), c);
                final(self).model() == s.m && final(self).contents.events() == old(
                    self,
                ).contents.events() + s.evs && again == s.again
            }),
    {
        if c == NUMBERSIGN {
            false
        } else if is_crlf(c) {
            if !self.header_parser.post() {
                self.error();
            }
            self.state = PState::HeaderNewLine;
            true
        } else if c == END {
            self.reset();
            false
        } else {
            self.header_parser.accept(c);
            false
        }
    }

    fn header_new_line(&mut self, c: char) -> (again: bool)
        requires
            old(self).contents.inv(),
        ensures
            final(self).contents.inv(),
            ({
                let s = spec_header_new_line(old(self).model(), c);
                final(self).model() == s.m && final(self).contents.events() == old(
                    self,
                ).contents.events() + s.evs && again == s.again
            }),
    {
        let out = self.new_line.accept(c);
        if out.len() > 0 {
            self.row = self.row.saturating_add(1);
            self.n = 0;
        }
        if is_crlf(c) {
            false
        } else {
            self.state = PState::PreHeader;
            true
        }
    }

    fn accept_pre_offset(&mut self, c: char) -> (again: bool)
        requires
            old(self).contents.inv(),
        ensures
            final(self).contents.inv(),
            ({
                let s = spec_pre_offset(old(self).model(), c);
                final(self).model() == s.m && final(self).contents.events() == old(
                    self,
                ).contents.events() + s.evs && again == s.again
            }),
    {
        self.offset.pre();
        if is_hex(c) {
            self.state = PState::Offset;
            true
        } else if is_crlf(c) {
            self.state = PState::OffsetNewLine;
            true
        } else if c == END {
            self.reset();
            false
        } else {
            self.error();
            self.state = PState::OffsetError;
            false
        }
    }

    fn accept_offset(&mut self, c: char) -> (again: bool)
        requires
            old(self).contents.inv(),
        ensures
            final(self).contents.inv(),
            ({
                let s = spec_offset(old(self).model(), c);
                final(self).model() == s.m && final(self).contents.events() == old(
                    self,
                ).contents.events() + s.evs && again == s.again
            }),
    {
        if is_hex(c) {
            self.offset.accept(c);
            false
        } else if c == TILDE {
            if self.offset.post() {
                self.state = PState::PreKey;
                return false;
            }
            self.error();
            self.state = PState::OffsetError;
            false
        } else if is_crlf(c) {
            self.error();
            self.state = PState::OffsetNewLine;
            true
        } else if c == END {
            self.reset();
            false
        } else {
            self.error();
            self.state = PState::OffsetError;
            false
        }
    }

    fn offset_error(&mut self, c: char) -> (again: bool)
        requires
            old(self).contents.inv(),
        ensures
            final(self).contents.inv(),
            ({
                let s = spec_offset_error(old(self).model(), c);
                final(self).model() == s.m && final(self).contents.events() == old(
                    self,
                ).contents.events() + s.evs && again == s.again
            }),
    {
        if is_crlf(c) {
            self.state = PState::OffsetNewLine;
            true
        } else if c == END {
            self.reset();
            false
        } else {
            false
        }
    }

    fn offset_new_line(&mut self, c: char) -> (again: bool)
        requires
            old(self).contents.inv(),
        ensures
            final(self).contents.inv(),
            ({
                let s = spec_offset_new_line(old(self).model(), c);
                final(self).model() == s.m && final(self).contents.events() == old(
                    self,
                ).contents.events() + s.evs && again == s.again
            }),
    {
        let out = self.new_line.accept(c);
        if out.len() > 0 {
            self.row = self.row.saturating_add(1);
            self.n = 0;
        }
        if is_crlf(c) {
            false
        } else {
            self.state = PState::PreOffset;
            true
        }
    }

    fn accept_pre_key(&mut self, c: char) -> (again: bool)
        requires
            old(self).contents.inv(),
        ensures
            final(self).contents.inv(),
            ({
                let s = spec_pre_key(old(self).model(), c);
                final(self).model() == s.m && final(self).contents.events() == old(
                    self,
                ).contents.events() + s.evs && again == s.again
            }),
    {
        self.contents.pre_key(self.offset.number);
        if c == COLON {
            self.error();
            self.state = PState::KeyError;
            false
        } else if is_crlf(c) {
            self.error();
            self.state = PState::OffsetNewLine;
            true
        } else {
            self.state = PState::Key;
            true
        }
    }

    fn accept_key(&mut self, c: char) -> (again: bool)
        requires
            old(self).contents.inv(),
        ensures
            final(self).contents.inv(),
            ({
                let s = spec_key(old(self).model(), c);
                final(self).model() == s.m && final(self).contents.events() == old(
                    self,
                ).contents.events() + s.evs && again == s.again
            }),
    {
        if c == COLON {
            self.contents.post_key();
            self.state = PState::PreText;
            false
        } else if c == BACKSLASH {
            self.state = PState::KeyBackslash;
            false
        } else if is_crlf(c) {
            self.contents.post_key();
            self.contents.post_text();
            self.state = PState::OffsetNewLine;
            true
        } else if c == END {
            self.contents.post_key();
            self.contents.post_text();
            self.reset();
            false
        } else {
            self.contents.key(c);
            false
        }
    }

    /// One character after a backslash in a key: taken literally, unless
    /// it is a newline or the sentinel, which cancel the escape.
    fn key_backslash(&mut self, c: char) -> (again: bool)
        requires
            old(self).contents.inv(),
        ensures
            final(self).contents.inv(),
            ({
                let s = spec_key_backslash(old(self).model(), c);
                final(self).model() == s.m && final(self).contents.events() == old(
                    self,
                ).contents.events() + s.evs && again == s.again
            }),
    {
        if is_crlf(c) || c == END {
            self.state = PState::Key;
            true
        } else {
            self.contents.key(c);
            self.state = PState::Key;
            false
        }
    }

    fn key_error(&mut self, c: char) -> (again: bool)
        requires
            old(self).contents.inv(),
        ensures
            final(self).contents.inv(),
            ({
                let s = spec_key_error(old(self).model(), c);
                final(self).model() == s.m && final(self).contents.events() == old(
                    self,
                ).contents.events() + s.evs && again == s.again
            }),
    {
        if is_crlf(c) {
            self.state = PState::PreOffset;
            true
        } else if c == END {
            self.reset();
            false
        } else {
            false
        }
    }

    fn accept_pre_text(&mut self, c: char) -> (again: bool)
        requires
            old(self).contents.inv(),
        ensures
            final(self).contents.inv(),
            ({
                let s = spec_pre_text(old(self).model(), c);
                final(self).model() == s.m && final(self).contents.events() == old(
                    self,
                ).contents.events() + s.evs && again == s.again
            }),
    {
        self.contents.pre_text();
        if is_crlf(c) {
            self.state = PState::TextNewLine;
            true
        } else {
            self.state = PState::Text;
            true
        }
    }

    fn accept_text(&mut self, c: char) -> (again: bool)
        requires
            old(self).contents.inv(),
        ensures
            final(self).contents.inv(),
            ({
                let s = spec_text(old(self).model(), c);
                final(self).model() == s.m && final(self).contents.events() == old(
                    self,
                ).contents.events() + s.evs && again == s.again
            }),
    {
        if is_crlf(c) {
            self.state = PState::TextNewLine;
            true
        } else if c == END {
            self.state = PState::TextNewLine;
            true
        } else {
            self.contents.text(c);
            false
        }
    }

    fn text_new_line(&mut self, c: char) -> (again: bool)
        requires
            old(self).contents.inv(),
        ensures
            final(self).contents.inv(),
            ({
                let s = spec_text_new_line(old(self).model(), c);
                final(self).model() == s.m && final(self).contents.events() == old(
                    self,
                ).contents.events() + s.evs && again == s.again
            }),
    {
        if c == SPACE {
            return false;
        }
        let out = self.new_line.accept(c);
        if out.len() > 0 {
            self.row = self.row.saturating_add(1);
            self.n = 0;
        } else if is_crlf(c) {
            return false;
        }
        if out.len() > 0 && c == VERTICAL {
            let ghost mid = self.model();
            let ghost base = self.contents.events();
            proof {
                assert(text_evs(out@.take(0)) =~= Seq::<Event>::empty());
            }
            let mut i: usize = 0;
            while i < out.len()
                invariant
                    0 <= i <= out@.len(),
                    self.model() == mid,
                    self.contents.inv(),
                    self.contents.events() == base + text_evs(out@.take(i as int)),
                decreases out@.len() - i,
            {
                proof {
                    lemma_text_evs_snoc(out@, i as int);
                }
                self.contents.text(out[i]);
                i += 1;
            }
            proof {
                assert(out@.take(out@.len() as int) =~= out@);
            }
        }
        if c == VERTICAL || c == PLUS {
            self.state = PState::TextMore;
            return true;
        }
        self.contents.post_text();
        if c == END {
            self.reset();
            return false;
        }
        if is_crlf(c) {
            self.state = PState::OffsetNewLine;
            return false;
        }
        self.state = PState::PreOffset;
        true
    }

    fn text_more(&mut self, c: char) -> (again: bool)
        requires
            old(self).contents.inv(),
        ensures
            final(self).contents.inv(),
            ({
                let s = spec_text_more(old(self).model(), c);
                final(self).model() == s.m && final(self).contents.events() == old(
                    self,
                ).contents.events() + s.evs && again == s.again
            }),
    {
        if c == VERTICAL {
            self.state = PState::Text;
            false
        } else if c == PLUS {
            self.contents.text_array();
            self.state = PState::Text;
            false
        } else if c == END {
            self.contents.post_text();
            self.reset();
            false
        } else {
            self.error();
            if is_crlf(c) {
                self.state = PState::TextNewLine;
                true
            } else {
                self.state = PState::TextMoreError;
                false
            }
        }
    }

    fn text_more_error(&mut self, c: char) -> (again: bool)
        requires
            old(self).contents.inv(),
        ensures
            final(self).contents.inv(),
            ({
                let s = spec_text_more_error(old(self).model(), c);
                final(self).model() == s.m && final(self).contents.events() == old(
                    self,
                ).contents.events() + s.evs && again == s.again
            }),
    {
        if is_crlf(c) {
            self.state = PState::TextNewLine;
            true
        } else if c == END {
            self.contents.post_text();
            self.reset();
            false
        } else {
            false
        }
    }

    fn step_once(&mut self, c: char) -> (again: bool)
        requires
            old(self).contents.inv(),
        ensures
            final(self).contents.inv(),
            ({
                let s = spec_step_once(old(self).model(), c);
                final(self).model() == s.m && final(self).contents.events() == old(
                    self,
                ).contents.events() + s.evs && again == s.again
            }),
    {
        match self.state {
            PState::PreHeader => self.accept_pre_header(c),
            PState::Header => self.accept_header(c),
            PState::HeaderNewLine => self.header_new_line(c),
            PState::PreOffset => self.accept_pre_offset(c),
            PState::Offset => self.accept_offset(c),
            PState::OffsetError => self.offset_error(c),
            PState::OffsetNewLine => self.offset_new_line(c),
            PState::PreKey => self.accept_pre_key(c),
            PState::Key => self.accept_key(c),
            PState::KeyBackslash => self.key_backslash(c),
            PState::KeyError => self.key_error(c),
            PState::PreText => self.accept_pre_text(c),
            PState::Text => self.accept_text(c),
            PState::TextNewLine => self.text_new_line(c),
            PState::TextMore => self.text_more(c),
            PState::TextMoreError => self.text_more_error(c),
        }
    }

    /// Consume one character, fully processing every cascading state
    /// transition and consumer callback before returning.
    pub(crate) fn accept(&mut self, c: char)
        requires
            old(self).contents.inv(),
        ensures
            final(self).contents.inv(),
            final(self).model() == spec_accept(old(self).model(), c).m,
            final(self).contents.events() == old(self).contents.events() + spec_accept(
                old(self).model(),
                c,
            ).evs,
    {
        self.n = self.n.saturating_add(1);
        let ghost m1 = self.model();
        let ghost evs0 = self.contents.events();
        let ghost mut fuel: nat = 10;
        let ghost mut emitted: Seq<Event> = Seq::empty();
        let mut again = true;
        proof {
            assert(m1 == PModel { n: inc_sat(old(self).model().n), ..old(self).model() });
            assert(rank(m1.state, c) <= 10);
        }
        while again
            invariant
                self.contents.inv(),
                self.contents.events() == evs0 + emitted,
                again ==> spec_steps(m1, c, 10).m == spec_steps(self.model(), c, fuel).m,
                again ==> spec_steps(m1, c, 10).evs == emitted + spec_steps(
                    self.model(),
                    c,
                    fuel,
                ).evs,
                again ==> fuel >= rank(self.model().state, c),
                !again ==> self.model() == spec_steps(m1, c, 10).m,
                !again ==> emitted == spec_steps(m1, c, 10).evs,
            decreases fuel + (if again { 1nat } else { 0nat }),
        {
            let ghost pre_m = self.model();
            let ghost pre_fuel = fuel;
            let ghost pre_emitted = emitted;
            again = self.step_once(c);
            proof {
                let s = spec_step_once(pre_m, c);
                lemma_rank_decreases(pre_m, c);
                emitted = pre_emitted + s.evs;
                if s.again {
                    fuel = (pre_fuel - 1) as nat;
                    assert(spec_steps(pre_m, c, pre_fuel) == StepRes {
                        m: spec_steps(s.m, c, fuel).m,
                        evs: s.evs + spec_steps(s.m, c, fuel).evs,
                        again: false,
                    });
                    assert(pre_emitted + (s.evs + spec_steps(s.m, c, fuel).evs) == (pre_emitted
                        + s.evs) + spec_steps(s.m, c, fuel).evs) by {
                        assert(pre_emitted + (s.evs + spec_steps(s.m, c, fuel).evs) =~= (
                        pre_emitted + s.evs) + spec_steps(s.m, c, fuel).evs);
                    }
                } else {
                    assert(spec_steps(pre_m, c, pre_fuel) == StepRes {
                        m: s.m,
                        evs: s.evs,
                        again: false,
                    });
                }
            }
        }
        proof {
            assert(spec_accept(old(self).model(), c) == spec_steps(m1, c, 10));
        }
    }
}

} // verus!
