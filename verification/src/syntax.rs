//! The augmented kind model: a caller's kinds plus three structural markers.

use vstd::prelude::*;
use vstd::string::{to_string_from_display_ensures, StringExecFns};

verus! {

/// Raw code of the indent marker: the third highest 32-bit value.
pub const INDENT_RAW: u32 = 4294967293;

/// Raw code of the dedent marker: the second highest 32-bit value.
pub const DEDENT_RAW: u32 = 4294967294;

/// Raw code of the newline marker: the highest 32-bit value.
pub const NEWLINE_RAW: u32 = 4294967295;

/// A caller's own finite set of kinds, with its encoding into raw codes.
///
/// The encoding must stay below the three codes reserved for the markers,
/// and decoding must invert it on the declared domain. What this crate
/// proves of a kind holds of every implementation that keeps the contracts
/// below.
pub trait TokenKind: Sized + Copy {
    /// The raw code of a kind.
    spec fn encoding(self) -> u32;

    /// The kind that a raw code of the domain stands for.
    spec fn decoding(raw: u32) -> Self;

    /// The raw codes that stand for a kind.
    spec fn in_domain(raw: u32) -> bool;

    /// The fixed text of a kind, where it has one.
    spec fn fixed_text(self) -> Option<&'static str>;

    /// Every kind encodes into the domain, below the reserved codes, and
    /// decodes back to itself.
    proof fn encoding_round_trip(self)
        ensures
            Self::in_domain(self.encoding()),
            self.encoding() < INDENT_RAW,
            Self::decoding(self.encoding()) == self,
    ;

    /// Every raw code of the domain decodes to a kind that encodes back to it.
    proof fn decoding_round_trip(raw: u32)
        requires
            Self::in_domain(raw),
        ensures
            Self::decoding(raw).encoding() == raw,
    ;

    /// Tells whether a raw code stands for a kind.
    fn accepts(raw: u32) -> (ok: bool)
        ensures
            ok == Self::in_domain(raw),
    ;

    /// Decodes a raw code of the domain.
    fn from_raw(raw: u32) -> (kind: Self)
        requires
            Self::in_domain(raw),
        ensures
            kind == Self::decoding(raw),
    ;

    /// Encodes a kind.
    fn into_raw(self) -> (raw: u32)
        ensures
            raw == self.encoding(),
    ;

    /// The fixed text of a kind, where it has one.
    fn static_text(self) -> (text: Option<&'static str>)
        ensures
            text == self.fixed_text(),
    ;
}

/// A caller's kind or one of the three structural markers.
#[derive(Debug, Clone, Copy, PartialEq, Eq, PartialOrd, Ord, Hash)]
pub enum Syntax2D<S> {
    /// Pushes the token's text onto the indentation stack.
    Indent,
    /// Pops the most recent entry of the indentation stack.
    Dedent,
    /// Ends the current line.
    Newline,
    /// An ordinary token of the caller's kind.
    Token(S),
}

/// True for the three raw codes reserved for the markers.
pub open spec fn is_marker(raw: u32) -> bool {
    raw >= INDENT_RAW
}

impl<S: TokenKind> Syntax2D<S> {
    /// The raw code of a kind: a reserved code for a marker, the caller's
    /// own encoding otherwise.
    pub open spec fn encode(self) -> u32 {
        match self {
            Syntax2D::Indent => INDENT_RAW,
            Syntax2D::Dedent => DEDENT_RAW,
            Syntax2D::Newline => NEWLINE_RAW,
            Syntax2D::Token(s) => s.encoding(),
        }
    }

    /// The kind of a raw code: a marker for a reserved code, the caller's
    /// own decoding otherwise.
    pub open spec fn decode(raw: u32) -> Self {
        if raw == INDENT_RAW {
            Syntax2D::Indent
        } else if raw == DEDENT_RAW {
            Syntax2D::Dedent
        } else if raw == NEWLINE_RAW {
            Syntax2D::Newline
        } else {
            Syntax2D::Token(S::decoding(raw))
        }
    }

    /// The raw codes that decode: the reserved ones and the caller's domain.
    pub open spec fn decodable(raw: u32) -> bool {
        is_marker(raw) || S::in_domain(raw)
    }

    /// Tells whether a raw code decodes.
    pub fn accepts(raw: u32) -> (ok: bool)
        ensures
            ok == Self::decodable(raw),
    {
        raw >= INDENT_RAW || S::accepts(raw)
    }

    /// Decodes a raw code.
    pub fn from_raw(raw: u32) -> (kind: Self)
        requires
            Self::decodable(raw),
        ensures
            kind == Self::decode(raw),
            kind.encode() == raw,
    {
        proof {
            if !is_marker(raw) {
                S::decoding_round_trip(raw);
            }
        }
        if raw == INDENT_RAW {
            Syntax2D::Indent
        } else if raw == DEDENT_RAW {
            Syntax2D::Dedent
        } else if raw == NEWLINE_RAW {
            Syntax2D::Newline
        } else {
            Syntax2D::Token(S::from_raw(raw))
        }
    }

    /// Decodes a raw code where it decodes, and says so where it does not.
    pub fn try_from_raw(raw: u32) -> (kind: Option<Self>)
        ensures
            kind is Some <==> Self::decodable(raw),
            kind matches Some(k) ==> k == Self::decode(raw) && k.encode() == raw,
    {
        if Self::accepts(raw) {
            Some(Self::from_raw(raw))
        } else {
            None
        }
    }

    /// Encodes a kind.
    pub fn into_raw(self) -> (raw: u32)
        ensures
            raw == self.encode(),
            Self::decodable(raw),
            Self::decode(raw) == self,
            is_marker(raw) <==> !(self is Token),
    {
        proof {
            Self::decode_inverts_encode(self);
        }
        match self {
            Syntax2D::Indent => INDENT_RAW,
            Syntax2D::Dedent => DEDENT_RAW,
            Syntax2D::Newline => NEWLINE_RAW,
            Syntax2D::Token(s) => s.into_raw(),
        }
    }

    /// The fixed text of a kind: the caller's for a token, none for a marker,
    /// whose text is given with each occurrence.
    pub open spec fn fixed_text(self) -> Option<&'static str> {
        match self {
            Syntax2D::Token(s) => s.fixed_text(),
            _ => None,
        }
    }

    /// The fixed text of a kind, where it has one.
    pub fn static_text(self) -> (text: Option<&'static str>)
        ensures
            text == self.fixed_text(),
    {
        match self {
            Syntax2D::Token(s) => s.static_text(),
            _ => None,
        }
    }

    /// Decoding undoes encoding: every kind, marker or not, encodes to a raw
    /// code that decodes, and that decodes to the same kind.
    pub proof fn decode_inverts_encode(kind: Self)
        ensures
            Self::decodable(kind.encode()),
            Self::decode(kind.encode()) == kind,
            is_marker(kind.encode()) <==> !(kind is Token),
    {
        if let Syntax2D::Token(s) = kind {
            s.encoding_round_trip();
        }
    }

    /// Encoding undoes decoding on every raw code that decodes.
    pub proof fn encode_inverts_decode(raw: u32)
        requires
            Self::decodable(raw),
        ensures
            Self::decode(raw).encode() == raw,
    {
        if !is_marker(raw) {
            S::decoding_round_trip(raw);
        }
    }

    /// The encoding is injective: two kinds with the same raw code are the
    /// same kind, so no marker shares a code with a caller's kind.
    pub proof fn encode_is_injective(a: Self, b: Self)
        requires
            a.encode() == b.encode(),
        ensures
            a == b,
    {
        Self::decode_inverts_encode(a);
        Self::decode_inverts_encode(b);
    }
}

impl<S: TokenKind + core::fmt::Display> Syntax2D<S> {
    /// The kind as text: the name of a marker, or `Text(..)` around the
    /// caller's kind as it shows itself.
    pub fn to_string(&self) -> (out: String)
        ensures
            *self is Indent ==> out@ == "Indent"@,
            *self is Dedent ==> out@ == "Dedent"@,
            *self is Newline ==> out@ == "Newline"@,
            *self matches Syntax2D::Token(s) ==> exists|shown: String|
                to_string_from_display_ensures::<S>(&s, shown) && out@ == "Text("@ + shown@
                    + ")"@,
    {
        match self {
            Syntax2D::Indent => String::from_str("Indent"),
            Syntax2D::Dedent => String::from_str("Dedent"),
            Syntax2D::Newline => String::from_str("Newline"),
            Syntax2D::Token(s) => {
                let shown = s.to_string();
                let mut out = String::from_str("Text(");
                out.append(shown.as_str());
                out.append(")");
                out
            },
        }
    }
}

impl<S: TokenKind> From<S> for Syntax2D<S> {
    fn from(s: S) -> (kind: Self) {
        Syntax2D::Token(s)
    }
}

impl<S: TokenKind> vstd::std_specs::convert::FromSpecImpl<S> for Syntax2D<S> {
    open spec fn obeys_from_spec() -> bool {
        true
    }

    open spec fn from_spec(s: S) -> Self {
        Syntax2D::Token(s)
    }
}

} // verus!
