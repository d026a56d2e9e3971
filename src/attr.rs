//! Wire encoding of the attribute files: plane type, connector status and flags.

use crate::model::{ConnectorStatus, PlaneKind};
use vstd::prelude::*;

verus! {

/// Unicode `White_Space`, the characters that `str::trim` removes.
pub open spec fn is_white_space(c: char) -> bool {
    ('\u{9}' <= c && c <= '\u{d}') || c == ' ' || c == '\u{85}' || c == '\u{a0}' || c
        == '\u{1680}' || ('\u{2000}' <= c && c <= '\u{200a}') || c == '\u{2028}' || c
        == '\u{2029}' || c == '\u{202f}' || c == '\u{205f}' || c == '\u{3000}'
}

pub open spec fn trim_start(s: Seq<char>) -> Seq<char>
    decreases s.len(),
{
    if s.len() > 0 && is_white_space(s[0]) {
        trim_start(s.drop_first())
    } else {
        s
    }
}

pub open spec fn trim_end(s: Seq<char>) -> Seq<char>
    decreases s.len(),
{
    if s.len() > 0 && is_white_space(s.last()) {
        trim_end(s.drop_last())
    } else {
        s
    }
}

/// `s` without its leading and trailing white space.
pub open spec fn trimmed(s: Seq<char>) -> Seq<char> {
    trim_end(trim_start(s))
}

/// Relies on `str::trim`: the slice of `s` without leading and trailing
/// Unicode `White_Space`.
#[verifier::external_body]
fn trim_attr<'a>(s: &'a str) -> (r: &'a str)
    ensures
        r@ == trimmed(s@),
{
    s.trim()
}

/// The contents of a `type` attribute: 0-based.
pub open spec fn kind_attr(k: PlaneKind) -> Seq<char> {
    match k {
        PlaneKind::Overlay => seq!['0'],
        PlaneKind::Primary => seq!['1'],
        PlaneKind::Cursor => seq!['2'],
    }
}

/// The plane type that `type` contents (already trimmed) stand for.
pub open spec fn parse_kind(t: Seq<char>) -> Option<PlaneKind> {
    if t == seq!['0'] {
        Some(PlaneKind::Overlay)
    } else if t == seq!['1'] {
        Some(PlaneKind::Primary)
    } else if t == seq!['2'] {
        Some(PlaneKind::Cursor)
    } else {
        None
    }
}

/// The contents of a `status` attribute: 1-based.
pub open spec fn status_attr(s: ConnectorStatus) -> Seq<char> {
    match s {
        ConnectorStatus::Connected => seq!['1'],
        ConnectorStatus::Disconnected => seq!['2'],
        ConnectorStatus::Unknown => seq!['3'],
    }
}

/// The connector status that `status` contents (already trimmed) stand for.
pub open spec fn parse_status(t: Seq<char>) -> Option<ConnectorStatus> {
    if t == seq!['1'] {
        Some(ConnectorStatus::Connected)
    } else if t == seq!['2'] {
        Some(ConnectorStatus::Disconnected)
    } else if t == seq!['3'] {
        Some(ConnectorStatus::Unknown)
    } else {
        None
    }
}

/// The contents of a flag attribute (`enabled`, `writeback`).
pub open spec fn flag_attr(b: bool) -> Seq<char> {
    if b {
        seq!['1']
    } else {
        seq!['0']
    }
}

/// A flag is set exactly when its contents, trimmed, are `1`.
pub open spec fn parse_flag(t: Seq<char>) -> bool {
    t == seq!['1']
}

/// The one-character string `c`.
fn char_string(c: char) -> (r: String)
    requires
        c == '0' || c == '1' || c == '2' || c == '3',
    ensures
        r@ == seq![c],
{
    proof {
        reveal_strlit("0");
        reveal_strlit("1");
        reveal_strlit("2");
        reveal_strlit("3");
    }
    let r = if c == '0' {
        "0".to_owned()
    } else if c == '1' {
        "1".to_owned()
    } else if c == '2' {
        "2".to_owned()
    } else {
        "3".to_owned()
    };
    proof {
        assert(r@ =~= seq![c]);
    }
    r
}

/// The single character of `t`, if it has exactly one.
fn single_char(t: &str) -> (r: Option<char>)
    ensures
        r matches Some(c) ==> t@ == seq![c] && forall|d: char| t@ == seq![d] <==> d == c,
        r is None ==> forall|d: char| t@ != seq![d],
{
    proof {
        assert forall|d: char| #![auto] seq![d].len() == 1 && seq![d][0] == d by {}
    }
    if t.unicode_len() == 1 {
        let c = t.get_char(0);
        proof {
            assert(t@ =~= seq![c]);
        }
        Some(c)
    } else {
        None
    }
}

impl PlaneKind {
    /// The contents written to a plane's `type` attribute.
    pub fn to_attr(&self) -> (r: String)
        ensures
            r@ == kind_attr(*self),
    {
        match self {
            PlaneKind::Overlay => char_string('0'),
            PlaneKind::Primary => char_string('1'),
            PlaneKind::Cursor => char_string('2'),
        }
    }

    /// The plane type read from `type` contents; `None` for any value but
    /// `0`, `1` or `2` around white space.
    pub fn from_attr(contents: &str) -> (r: Option<PlaneKind>)
        ensures
            r == parse_kind(trimmed(contents@)),
    {
        let t = trim_attr(contents);
        match single_char(t) {
            Some(c) => {
                if c == '0' {
                    Some(PlaneKind::Overlay)
                } else if c == '1' {
                    Some(PlaneKind::Primary)
                } else if c == '2' {
                    Some(PlaneKind::Cursor)
                } else {
                    None
                }
            },
            None => None,
        }
    }
}

impl ConnectorStatus {
    /// The contents written to a connector's `status` attribute.
    pub fn to_attr(&self) -> (r: String)
        ensures
            r@ == status_attr(*self),
    {
        match self {
            ConnectorStatus::Connected => char_string('1'),
            ConnectorStatus::Disconnected => char_string('2'),
            ConnectorStatus::Unknown => char_string('3'),
        }
    }

    /// The status read from `status` contents; `None` for any value but
    /// `1`, `2` or `3` around white space.
    pub fn from_attr(contents: &str) -> (r: Option<ConnectorStatus>)
        ensures
            r == parse_status(trimmed(contents@)),
    {
        let t = trim_attr(contents);
        match single_char(t) {
            Some(c) => {
                if c == '1' {
                    Some(ConnectorStatus::Connected)
                } else if c == '2' {
                    Some(ConnectorStatus::Disconnected)
                } else if c == '3' {
                    Some(ConnectorStatus::Unknown)
                } else {
                    None
                }
            },
            None => None,
        }
    }
}

/// The contents written to a flag attribute.
pub fn flag_to_attr(b: bool) -> (r: String)
    ensures
        r@ == flag_attr(b),
{
    if b {
        char_string('1')
    } else {
        char_string('0')
    }
}

/// Reads a flag attribute: set exactly when the contents, trimmed, are `1`.
pub fn flag_from_attr(contents: &str) -> (r: bool)
    ensures
        r == parse_flag(trimmed(contents@)),
{
    let t = trim_attr(contents);
    match single_char(t) {
        Some(c) => c == '1',
        None => false,
    }
}

/// A one-character value with no white space is its own trimmed form.
pub proof fn lemma_trimmed_digit(c: char)
    requires
        !is_white_space(c),
    ensures
        trimmed(seq![c]) == seq![c],
{
    let s = seq![c];
    assert(trim_start(s) == s);
    assert(trim_end(s) == s);
}

/// A plane type survives its encoding, and the only contents that decode to a
/// type are that type's encoding.
pub proof fn lemma_plane_kind_round_trip(k: PlaneKind, contents: Seq<char>)
    ensures
        parse_kind(trimmed(kind_attr(k))) == Some(k),
        parse_kind(trimmed(contents)) matches Some(k2) ==> trimmed(contents) == kind_attr(k2),
{
    match k {
        PlaneKind::Overlay => lemma_trimmed_digit('0'),
        PlaneKind::Primary => lemma_trimmed_digit('1'),
        PlaneKind::Cursor => lemma_trimmed_digit('2'),
    }
}

/// A connector status survives its encoding, and the only contents that
/// decode to a status are that status's encoding.
pub proof fn lemma_connector_status_round_trip(s: ConnectorStatus, contents: Seq<char>)
    ensures
        parse_status(trimmed(status_attr(s))) == Some(s),
        parse_status(trimmed(contents)) matches Some(s2) ==> trimmed(contents) == status_attr(s2),
{
    match s {
        ConnectorStatus::Connected => lemma_trimmed_digit('1'),
        ConnectorStatus::Disconnected => lemma_trimmed_digit('2'),
        ConnectorStatus::Unknown => lemma_trimmed_digit('3'),
    }
}

/// A flag survives its encoding.
pub proof fn lemma_flag_round_trip(b: bool)
    ensures
        parse_flag(trimmed(flag_attr(b))) == b,
{
    if b {
        lemma_trimmed_digit('1');
    } else {
        lemma_trimmed_digit('0');
    }
}

} // verus!
