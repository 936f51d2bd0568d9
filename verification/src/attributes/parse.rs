//! Reading an attribute file line by line, and the attributes of a line one by one.
//!
//! A line holds a pattern, which may be quoted, and behind it the attributes
//! that it assigns. Empty lines and lines that begin with `#` say nothing.
//! What a pattern means is for the parser of patterns to say, which is
//! handed in as a function.
use crate::attributes::{Mode, State, StateModel, UnquoteError};
use crate::bytes::{
    byte_views, copy_range, first_where, lemma_first_where, lemma_first_where_bounds,
};
use bstr::ByteSlice;
use vstd::prelude::*;
use vstd::slice::slice_subrange;

verus! {

/// What a line is about.
#[derive(Debug)]
pub enum Kind {
    /// A pattern to match paths against.
    Pattern(Vec<u8>),
    /// The name of a macro that the line defines.
    Macro(Vec<u8>),
}

/// Why an attribute file could not be read.
#[derive(Debug)]
pub enum Error {
    /// The pattern of the line is negated, which attribute files do not allow.
    PatternNegation {
        /// The number of the line, counting from one.
        line_number: usize,
        /// The line, without blanks before it.
        line: Vec<u8>,
    },
    /// The name of an attribute holds a byte that names cannot hold, or begins with `-`.
    AttributeName {
        /// The number of the line, counting from one.
        line_number: usize,
        /// The name.
        attribute: Vec<u8>,
    },
    /// The quoted pattern of the line could not be unquoted.
    Unquote(UnquoteError),
}

/// The attributes of one line.
#[derive(Debug)]
pub struct Iter {
    /// The fields of the line behind its pattern.
    pub attrs: Vec<Vec<u8>>,
    /// The number of fields handed out.
    pub position: usize,
    /// The number of the line.
    pub line_no: usize,
}

/// The lines of an attribute file.
#[derive(Debug)]
pub struct Lines {
    /// The lines of the file, without their terminators.
    pub lines: Vec<Vec<u8>>,
    /// The number of lines read, which is the number of the line read last.
    pub line_no: usize,
}

/// The byte that ends a line.
pub const NEWLINE: u8 = 0x0a;

/// Whether a byte is one of the blanks that separate a pattern from its
/// attributes: a space, a tabulator or a carriage return.
pub open spec fn is_blank(b: u8) -> bool {
    b == 0x20 || b == 0x09 || b == 0x0d
}

/// Whether a byte can stand in the name of an attribute.
pub open spec fn is_attr_byte(b: u8) -> bool {
    ||| b == 0x2d
    ||| b == 0x2e
    ||| b == 0x5f
    ||| 0x41 <= b <= 0x5a
    ||| 0x61 <= b <= 0x7a
    ||| 0x30 <= b <= 0x39
}

/// Whether a name can be the name of an attribute: it does not begin with
/// `-` and holds letters, digits, `-`, `.` and `_` only.
pub open spec fn valid_name(name: Seq<u8>) -> bool {
    &&& name.len() > 0 ==> name[0] != 0x2d
    &&& forall|i: int| 0 <= i < name.len() ==> is_attr_byte(#[trigger] name[i])
}

/// A line without the blanks before its first other byte. A line of blanks
/// only stays as it is.
pub open spec fn without_blanks(line: Seq<u8>) -> Seq<u8> {
    let start = first_where(line, 0, |b: u8| !is_blank(b));
    if start < line.len() {
        line.skip(start)
    } else {
        line
    }
}

/// What stands before the first `=` of a field.
pub open spec fn before_equals(attr: Seq<u8>) -> Seq<u8> {
    attr.take(first_where(attr, 0, |b: u8| b == 0x3d))
}

/// The name that a field assigns to: what stands before the first `=`,
/// without a `-` or `!` before it.
pub open spec fn attr_name(attr: Seq<u8>) -> Seq<u8> {
    let part = before_equals(attr);
    if part.len() > 0 && (part[0] == 0x2d || part[0] == 0x21) {
        part.skip(1)
    } else {
        part
    }
}

/// What a field says of its attribute: `-name` unsets it, `!name` leaves it
/// unspecified, `name=value` gives it a value, and `name` sets it.
pub open spec fn attr_state(attr: Seq<u8>) -> StateModel {
    let part = before_equals(attr);
    if part.len() > 0 && part[0] == 0x2d {
        StateModel::Unset
    } else if part.len() > 0 && part[0] == 0x21 {
        StateModel::Unspecified
    } else if part.len() < attr.len() {
        StateModel::Value(attr.skip(part.len() as int + 1))
    } else {
        StateModel::IsSet
    }
}

/// The fields of a line, as `bstr::ByteSlice::fields` tells them apart: the
/// runs of bytes between white space, where white space is what Unicode says
/// it is.
pub uninterp spec fn fields_of(bytes: Seq<u8>) -> Seq<Seq<u8>>;

/// The byte at place `i`, or -1 where the bytes end before it.
pub open spec fn byte_at(bytes: Seq<u8>, i: int) -> int {
    if 0 <= i < bytes.len() {
        bytes[i] as int
    } else {
        -1
    }
}

/// The length of the byte order mark at the start of the bytes, or zero
/// where there is none. The marks are those of UTF-32, SCSU, UTF-7,
/// GB 18030, UTF-EBCDIC, UTF-8, UTF-1, BOCU-1 and UTF-16.
pub open spec fn bom_size(bytes: Seq<u8>) -> nat {
    let (a, b, c, d) = (byte_at(bytes, 0), byte_at(bytes, 1), byte_at(bytes, 2), byte_at(bytes, 3));
    if a == 0x00 && b == 0x00 && c == 0xfe && d == 0xff {
        4
    } else if a == 0x0e && b == 0xfe && c == 0xff {
        3
    } else if a == 0x2b && b == 0x2f && c == 0x76 && (d == 0x38 || d == 0x39 || d == 0x2b || d
        == 0x2f) {
        4
    } else if a == 0x84 && b == 0x31 && c == 0x95 && d == 0x33 {
        4
    } else if a == 0xdd && b == 0x73 && c == 0x66 && d == 0x73 {
        4
    } else if a == 0xef && b == 0xbb && c == 0xbf {
        3
    } else if a == 0xf7 && b == 0x64 && c == 0x4c {
        3
    } else if a == 0xfb && b == 0xee && c == 0x28 {
        3
    } else if a == 0xfe && b == 0xff {
        2
    } else if a == 0xff && b == 0xfe {
        if c == 0x00 && d == 0x00 {
            4
        } else {
            2
        }
    } else {
        0
    }
}

/// What `git_quote::ansi_c::undo` makes of quoted text: the text without its
/// quotes and escapes and the number of bytes that it took, or nothing where
/// the text is not quoted well.
pub uninterp spec fn unquoted(input: Seq<u8>) -> Option<(Seq<u8>, nat)>;

/// A line without the terminator at its end, which is a line feed or a
/// carriage return and a line feed.
pub open spec fn without_terminator(line: Seq<u8>) -> Seq<u8> {
    if line.len() > 0 && line.last() == NEWLINE {
        let rest = line.drop_last();
        if rest.len() > 0 && rest.last() == 0x0d {
            rest.drop_last()
        } else {
            rest
        }
    } else {
        line
    }
}

/// The lines of `bytes` from position `from` on, without their terminators.
/// What stands behind the last line feed is a line too, unless it is empty.
pub open spec fn lines_from(bytes: Seq<u8>, from: int) -> Seq<Seq<u8>>
    decreases bytes.len() - from,
    via lines_from_terminates
{
    if from < 0 || from >= bytes.len() {
        Seq::empty()
    } else {
        let end = first_where(bytes, from, |b: u8| b == NEWLINE);
        if end >= bytes.len() {
            seq![bytes.skip(from)]
        } else {
            seq![without_terminator(bytes.subrange(from, end + 1))] + lines_from(bytes, end + 1)
        }
    }
}

#[via_fn]
proof fn lines_from_terminates(bytes: Seq<u8>, from: int) {
    if 0 <= from < bytes.len() {
        lemma_first_where_bounds(bytes, from, |b: u8| b == NEWLINE);
    }
}

/// `bstr::ByteSlice::fields`, each field copied out: the fields of the bytes.
#[verifier::external_body]
pub(crate) fn fields(bytes: &[u8]) -> (r: Vec<Vec<u8>>)
    ensures
        byte_views(r@) == fields_of(bytes@),
{
    bytes.fields().map(|field| field.to_vec()).collect()
}

/// `bstr::ByteSlice::lines`, each line copied out: the bytes are cut behind
/// every line feed, and each piece loses the line feed at its end and a
/// carriage return before that.
#[verifier::external_body]
pub(crate) fn lines(bytes: &[u8]) -> (r: Vec<Vec<u8>>)
    ensures
        byte_views(r@) == lines_from(bytes@, 0),
{
    bytes.lines().map(|line| line.to_vec()).collect()
}

/// `unicode_bom::Bom::from` and `len`: the length of the byte order mark at
/// the start of the bytes. The crate knows a mark by its first byte and the
/// bytes that follow it, and finds it only where all its bytes are there.
#[verifier::external_body]
pub(crate) fn bom_len(bytes: &[u8]) -> (r: usize)
    ensures
        r == bom_size(bytes@),
{
    unicode_bom::Bom::from(bytes).len()
}

/// `git_quote::ansi_c::undo` on text that begins with a quote: the text
/// without its quotes and escapes, copied out, and the number of bytes taken,
/// which are no more than there are. The crate reads one byte behind every
/// backslash without looking whether there is one, so the text must not end
/// in a backslash.
#[verifier::external_body]
pub(crate) fn unquote(input: &[u8]) -> (r: Result<(Vec<u8>, usize), UnquoteError>)
    requires
        input@.len() > 0,
        input@[0] == 0x22,
        input@.last() != 0x5c,
    ensures
        match r {
            Ok((text, consumed)) => unquoted(input@) == Some((text@, consumed as nat)) && consumed
                <= input@.len(),
            Err(_) => unquoted(input@) is None,
        },
{
    match git_quote::ansi_c::undo(input.as_bstr()) {
        Ok((text, consumed)) => Ok((text.into_owned().into(), consumed)),
        Err(inner) => Err(UnquoteError { inner }),
    }
}

/// Decides whether a byte is a blank.
pub fn blank(b: u8) -> (r: bool)
    ensures
        r == is_blank(b),
{
    b == 0x20 || b == 0x09 || b == 0x0d
}

/// Decides whether a name can be the name of an attribute.
pub fn attr_valid(attr: &[u8]) -> (r: bool)
    ensures
        r == valid_name(attr@),
{
    if attr.len() > 0 && attr[0] == 0x2d {
        return false;
    }
    let mut i: usize = 0;
    while i < attr.len()
        invariant
            i <= attr.len(),
            forall|k: int| 0 <= k < i ==> is_attr_byte(#[trigger] attr@[k]),
        decreases attr.len() - i,
    {
        let b = attr[i];
        let ok = b == 0x2d || b == 0x2e || b == 0x5f || (0x41 <= b && b <= 0x5a) || (0x61 <= b && b
            <= 0x7a) || (0x30 <= b && b <= 0x39);
        if !ok {
            assert(!is_attr_byte(attr@[i as int]));
            return false;
        }
        i += 1;
    }
    true
}

/// The line without the blanks before its first other byte.
pub fn skip_blanks(line: &[u8]) -> (r: &[u8])
    ensures
        r@ == without_blanks(line@),
{
    let mut i: usize = 0;
    while i < line.len() && blank(line[i])
        invariant
            i <= line.len(),
            forall|k: int| 0 <= k < i ==> is_blank(#[trigger] line@[k]),
        decreases line.len() - i,
    {
        i += 1;
    }
    proof {
        lemma_first_where(line@, 0, |b: u8| !is_blank(b), i as int);
    }
    if i < line.len() {
        slice_subrange(line, i, line.len())
    } else {
        line
    }
}

impl Iter {
    /// Whether the parts of the value fit together.
    pub open spec fn wf(&self) -> bool {
        self.position <= self.attrs.len()
    }

    /// The attributes that the fields of `attrs` assign, for the line with
    /// the number `line_no`.
    pub fn new(attrs: &[u8], line_no: usize) -> (r: Iter)
        ensures
            r.wf(),
            byte_views(r.attrs@) == fields_of(attrs@),
            r.position == 0,
            r.line_no == line_no,
    {
        Iter { attrs: fields(attrs), position: 0, line_no }
    }

    /// What one field says: the name of its attribute and what becomes of it.
    pub fn parse_attr(&self, attr: &[u8]) -> (r: Result<(Vec<u8>, State), Error>)
        ensures
            valid_name(attr_name(attr@)) ==> (r matches Ok((name, state)) && name@ == attr_name(
                attr@,
            ) && state@ == attr_state(attr@)),
            !valid_name(attr_name(attr@)) ==> (r matches Err(
                Error::AttributeName { line_number, attribute },
            ) && line_number == self.line_no && attribute@ == attr_name(attr@)),
    {
        let mut eq: usize = 0;
        while eq < attr.len() && attr[eq] != 0x3d
            invariant
                eq <= attr.len(),
                forall|k: int| 0 <= k < eq ==> #[trigger] attr@[k] != 0x3d,
            decreases attr.len() - eq,
        {
            eq += 1;
        }
        proof {
            lemma_first_where(attr@, 0, |b: u8| b == 0x3d, eq as int);
            assert(before_equals(attr@) =~= attr@.subrange(0, eq as int));
        }
        let (name, state) = if eq > 0 && attr[0] == 0x2d {
            (copy_range(attr, 1, eq), State::Unset)
        } else if eq > 0 && attr[0] == 0x21 {
            (copy_range(attr, 1, eq), State::Unspecified)
        } else if eq < attr.len() {
            (copy_range(attr, 0, eq), State::Value(copy_range(attr, eq + 1, attr.len())))
        } else {
            (copy_range(attr, 0, eq), State::IsSet)
        };
        assert(name@ =~= attr_name(attr@));
        assert(state@ == attr_state(attr@)) by {
            if let State::Value(v) = state {
                assert(v@ =~= attr@.skip(eq + 1));
            }
        }
        if !attr_valid(name.as_slice()) {
            return Err(Error::AttributeName { line_number: self.line_no, attribute: name });
        }
        Ok((name, state))
    }

    /// The next attribute of the line. An empty field ends the line.
    pub fn next(&mut self) -> (r: Option<Result<(Vec<u8>, State), Error>>)
        requires
            old(self).wf(),
        ensures
            final(self).wf(),
            final(self).attrs == old(self).attrs,
            final(self).line_no == old(self).line_no,
            old(self).position == old(self).attrs.len() ==> r is None && final(self).position
                == old(self).position,
            old(self).position < old(self).attrs.len() ==> {
                let attr = old(self).attrs@[old(self).position as int]@;
                &&& final(self).position == old(self).position + 1
                &&& attr.len() == 0 ==> r is None
                &&& attr.len() > 0 && valid_name(attr_name(attr)) ==> (r matches Some(
                    Ok((name, state)),
                ) && name@ == attr_name(attr) && state@ == attr_state(attr))
                &&& attr.len() > 0 && !valid_name(attr_name(attr)) ==> (r matches Some(
                    Err(Error::AttributeName { line_number, attribute }),
                ) && line_number == old(self).line_no && attribute@ == attr_name(attr))
            },
    {
        if self.position >= self.attrs.len() {
            return None;
        }
        let at = self.position;
        self.position = at + 1;
        if self.attrs[at].len() == 0 {
            return None;
        }
        Some(self.parse_attr(self.attrs[at].as_slice()))
    }
}

/// A line that begins with a quote and ends in a backslash: the one kind of
/// line that cannot be handed to the unquoting.
pub open spec fn ends_in_escape(line: Seq<u8>) -> bool {
    line.len() > 0 && line[0] == 0x22 && line.last() == 0x5c
}

/// The two parts of a line: the text of its pattern and what stands behind
/// it. A quoted pattern is unquoted; another one ends before the first blank.
/// Nothing where the quoted pattern cannot be unquoted.
pub open spec fn split_line(line: Seq<u8>) -> Option<(Seq<u8>, Seq<u8>)> {
    if line.len() > 0 && line[0] == 0x22 {
        match unquoted(line) {
            Some((text, consumed)) => Some((text, line.skip(consumed as int))),
            None => None,
        }
    } else {
        let end = first_where(line, 0, |b: u8| is_blank(b));
        Some((line.take(end), line.skip(end)))
    }
}

/// The pattern parser said of `text` that it means `parsed`.
pub open spec fn pattern_means<F: Fn(&[u8]) -> Option<(Vec<u8>, Mode)>>(
    parse_pattern: &F,
    text: Seq<u8>,
    parsed: Option<(Vec<u8>, Mode)>,
) -> bool {
    exists|arg: &[u8]| arg@ == text && #[trigger] call_ensures(*parse_pattern, (arg,), parsed)
}

/// What a line gives: nothing for an empty line and for one whose pattern
/// the pattern parser passes over, the error of the unquoting, or the
/// pattern as the pattern parser understood it, together with its attributes.
pub fn parse_line<F: Fn(&[u8]) -> Option<(Vec<u8>, Mode)>>(
    line: &[u8],
    line_number: usize,
    parse_pattern: &F,
) -> (r: Option<Result<(Kind, Mode, Iter), Error>>)
    requires
        !ends_in_escape(line@),
        forall|arg: &[u8]| call_requires(*parse_pattern, (arg,)),
    ensures
        line@.len() == 0 ==> r is None,
        line@.len() > 0 && split_line(line@) is None ==> r matches Some(Err(Error::Unquote(_))),
        line@.len() > 0 && split_line(line@) is Some ==> {
            let (text, rest) = split_line(line@)->Some_0;
            match r {
                None => pattern_means(parse_pattern, text, None),
                Some(Ok((Kind::Pattern(pattern), flags, attrs))) => {
                    &&& pattern_means(parse_pattern, text, Some((pattern, flags)))
                    &&& attrs.wf()
                    &&& byte_views(attrs.attrs@) == fields_of(rest)
                    &&& attrs.position == 0
                    &&& attrs.line_no == line_number
                },
                _ => false,
            }
        },
{
    if line.len() == 0 {
        return None;
    }
    let (text, rest): (Vec<u8>, Vec<u8>) = if line[0] == 0x22 {
        match unquote(line) {
            Ok((text, consumed)) => {
                let rest = copy_range(line, consumed, line.len());
                assert(rest@ =~= line@.skip(consumed as int));
                (text, rest)
            },
            Err(e) => {
                return Some(Err(Error::Unquote(e)));
            },
        }
    } else {
        let mut end: usize = 0;
        while end < line.len() && !blank(line[end])
            invariant
                end <= line.len(),
                forall|k: int| 0 <= k < end ==> !is_blank(#[trigger] line@[k]),
            decreases line.len() - end,
        {
            end += 1;
        }
        proof {
            lemma_first_where(line@, 0, |b: u8| is_blank(b), end as int);
        }
        let text = copy_range(line, 0, end);
        let rest = copy_range(line, end, line.len());
        assert(text@ =~= line@.take(end as int));
        assert(rest@ =~= line@.skip(end as int));
        (text, rest)
    };
    assert(split_line(line@) == Some((text@, rest@)));
    let parsed = parse_pattern(text.as_slice());
    assert(pattern_means(parse_pattern, text@, parsed));
    match parsed {
        None => None,
        Some((pattern, flags)) => Some(
            Ok((Kind::Pattern(pattern), flags, Iter::new(rest.as_slice(), line_number))),
        ),
    }
}

/// A line that says nothing: a comment, or a line that `parse_line` passes over.
pub open spec fn says_nothing<F: Fn(&[u8]) -> Option<(Vec<u8>, Mode)>>(
    parse_pattern: &F,
    line: Seq<u8>,
) -> bool {
    let line = without_blanks(line);
    ||| line.len() == 0
    ||| line[0] == 0x23
    ||| (split_line(line) matches Some((text, _)) && pattern_means(parse_pattern, text, None))
}

/// What a line that says something gives, where `number` is its number.
pub open spec fn line_gives<F: Fn(&[u8]) -> Option<(Vec<u8>, Mode)>>(
    parse_pattern: &F,
    line: Seq<u8>,
    number: usize,
    r: Result<(Kind, Mode, Iter, usize), Error>,
) -> bool {
    let line = without_blanks(line);
    &&& line.len() > 0
    &&& line[0] != 0x23
    &&& match split_line(line) {
        None => r matches Err(Error::Unquote(_)),
        Some((text, rest)) => match r {
            Ok((Kind::Pattern(pattern), flags, attrs, n)) => {
                &&& pattern_means(parse_pattern, text, Some((pattern, flags)))
                &&& !flags.negative
                &&& attrs.wf()
                &&& byte_views(attrs.attrs@) == fields_of(rest)
                &&& attrs.position == 0
                &&& attrs.line_no == number
                &&& n == number
            },
            Err(Error::PatternNegation { line_number, line: negated }) => {
                &&& line_number == number
                &&& negated@ == line
                &&& exists|pattern: Vec<u8>, flags: Mode|
                    flags.negative && #[trigger] pattern_means(
                        parse_pattern,
                        text,
                        Some((pattern, flags)),
                    )
            },
            _ => false,
        },
    }
}

impl Lines {
    /// Whether the parts of the value fit together.
    pub open spec fn wf(&self) -> bool {
        self.line_no <= self.lines.len()
    }

    /// Whether every line that is still to be read can be handed to the unquoting.
    pub open spec fn readable(&self) -> bool {
        forall|k: int|
            self.line_no <= k < self.lines.len() ==> !ends_in_escape(
                without_blanks((#[trigger] self.lines@[k])@),
            )
    }

    /// The lines of the given content of an attribute file. A byte order
    /// mark at its start is passed over.
    pub fn new(buf: &[u8]) -> (r: Lines)
        ensures
            r.wf(),
            r.line_no == 0,
            byte_views(r.lines@) == lines_from(buf@.skip(bom_size(buf@) as int), 0),
    {
        let bom = bom_len(buf);
        Lines { lines: lines(slice_subrange(buf, bom, buf.len())), line_no: 0 }
    }

    /// Decides whether every line that is still to be read can be handed to
    /// the unquoting.
    pub fn is_readable(&self) -> (r: bool)
        requires
            self.wf(),
        ensures
            r == self.readable(),
    {
        let mut k: usize = self.line_no;
        while k < self.lines.len()
            invariant
                self.line_no <= k <= self.lines.len(),
                forall|j: int|
                    self.line_no <= j < k ==> !ends_in_escape(
                        without_blanks((#[trigger] self.lines@[j])@),
                    ),
            decreases self.lines.len() - k,
        {
            let line = skip_blanks(self.lines[k].as_slice());
            if line.len() > 0 && line[0] == 0x22 && line[line.len() - 1] == 0x5c {
                assert(ends_in_escape(without_blanks(self.lines@[k as int]@)));
                return false;
            }
            k += 1;
        }
        true
    }

    /// The next line that says something, with its number: its pattern as
    /// the pattern parser understood it and its attributes, or why it could
    /// not be read. Lines that say nothing are passed over. A negated
    /// pattern is an error.
    pub fn next<F: Fn(&[u8]) -> Option<(Vec<u8>, Mode)>>(&mut self, parse_pattern: &F) -> (r: Option<
        Result<(Kind, Mode, Iter, usize), Error>,
    >)
        requires
            old(self).wf(),
            old(self).readable(),
            forall|arg: &[u8]| call_requires(*parse_pattern, (arg,)),
        ensures
            final(self).wf(),
            final(self).readable(),
            final(self).lines == old(self).lines,
            old(self).line_no <= final(self).line_no,
            r is None ==> final(self).line_no == old(self).lines.len(),
            r is Some ==> final(self).line_no > old(self).line_no && line_gives(
                parse_pattern,
                old(self).lines@[final(self).line_no - 1]@,
                final(self).line_no,
                r->Some_0,
            ),
            forall|k: int|
                old(self).line_no <= k < final(self).line_no - (if r is Some {
                    1int
                } else {
                    0int
                }) ==> says_nothing(parse_pattern, (#[trigger] old(self).lines@[k])@),
    {
        let ghost start = self.line_no;
        while self.line_no < self.lines.len()
            invariant
                self.wf(),
                self.readable(),
                self.lines == old(self).lines,
                start == old(self).line_no,
                start <= self.line_no,
                forall|arg: &[u8]| call_requires(*parse_pattern, (arg,)),
                forall|k: int|
                    start <= k < self.line_no ==> says_nothing(
                        parse_pattern,
                        (#[trigger] self.lines@[k])@,
                    ),
            decreases self.lines.len() - self.line_no,
        {
            let at = self.line_no;
            self.line_no = at + 1;
            let line = skip_blanks(self.lines[at].as_slice());
            assert(!ends_in_escape(line@));
            if line.len() > 0 && line[0] == 0x23 {
                continue;
            }
            match parse_line(line, at + 1, parse_pattern) {
                None => {
                    continue;
                },
                Some(Ok((pattern, flags, attrs))) => {
                    if flags.negative {
                        let negated = copy_range(line, 0, line.len());
                        proof {
                            let (text, rest) = split_line(line@)->Some_0;
                            let p = pattern->Pattern_0;
                            assert(pattern_means(parse_pattern, text, Some((p, flags))));
                            assert(negated@ =~= line@);
                            assert(line@ == without_blanks(old(self).lines@[at as int]@));
                        }
                        return Some(
                            Err(Error::PatternNegation { line: negated, line_number: at + 1 }),
                        );
                    }
                    return Some(Ok((pattern, flags, attrs, at + 1)));
                },
                Some(Err(err)) => {
                    return Some(Err(err));
                },
            }
        }
        None
    }
}

} // verus!
