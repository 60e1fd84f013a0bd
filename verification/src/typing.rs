//! Authoring-time stage and edge type contracts.
//!
//! Stage typing captures the declared input/output (and join leg) types for
//! a stage. Edge typing names which payload type flows across one connection.
//! Graph validation and traversal ignore these annotations.

use vstd::prelude::*;
use vstd::string::*;
use crate::text::{push_char, trim_str, trimmed};

verus! {

/// Three-way model for declared type positions.
///
/// `Unspecified` means no contract was declared, `Exact` carries the raw
/// captured type identifier, and `Mixed` means more than one type can flow.
#[derive(Clone, Debug, PartialEq, Eq)]
pub enum TypeHintInfo {
    Unspecified,
    Exact { name: String },
    Mixed,
}

/// Characters that may appear in a Rust path token.
pub open spec fn is_path_char(c: char) -> bool {
    ('0' <= c && c <= '9') || ('a' <= c && c <= 'z') || ('A' <= c && c <= 'Z') || c == '_' || c == ':'
}

/// The text after the last `::` of a token (the whole token if it has none).
pub open spec fn last_segment(t: Seq<char>) -> Seq<char>
    decreases t.len(),
{
    if t.len() < 2 {
        t
    } else if t[t.len() - 2] == ':' && t[t.len() - 1] == ':' {
        Seq::empty()
    } else {
        last_segment(t.drop_last()).push(t.last())
    }
}

/// Scans `t` from position `i` with the path token `token` collected so
/// far: each maximal run of path characters is replaced by its last
/// segment, every other character is kept.
pub open spec fn strip_from(t: Seq<char>, i: int, token: Seq<char>) -> Seq<char>
    decreases t.len() - i,
{
    if i < 0 || i >= t.len() {
        last_segment(token)
    } else if is_path_char(t[i]) {
        strip_from(t, i + 1, token.push(t[i]))
    } else {
        last_segment(token) + seq![t[i]] + strip_from(t, i + 1, Seq::empty())
    }
}

/// Display text of a (trimmed) type name: every path collapsed to its last
/// segment.
pub open spec fn strip_paths(t: Seq<char>) -> Seq<char> {
    strip_from(t, 0, Seq::empty())
}

/// Display text of a raw type name: trimmed, then paths collapsed.
pub open spec fn display_text(name: Seq<char>) -> Seq<char> {
    strip_paths(trimmed(name))
}

/// A character of a Rust identifier: an ASCII letter, an ASCII digit, or
/// `_`.
pub open spec fn is_ident_char(c: char) -> bool {
    ||| 'a' <= c <= 'z'
    ||| 'A' <= c <= 'Z'
    ||| '0' <= c <= '9'
    ||| c == '_'
}

/// Scanning a run of path characters collects all of it into the token.
proof fn lemma_strip_path_run(t: Seq<char>, i: int, token: Seq<char>)
    requires
        0 <= i <= t.len(),
        forall|j: int| i <= j < t.len() ==> is_path_char(#[trigger] t[j]),
    ensures
        strip_from(t, i, token) == last_segment(token + t.subrange(i, t.len() as int)),
    decreases t.len() - i,
{
    if i == t.len() {
        assert(token + t.subrange(i, t.len() as int) =~= token);
    } else {
        lemma_strip_path_run(t, i + 1, token.push(t[i]));
        assert(token.push(t[i]) + t.subrange(i + 1, t.len() as int) =~= token + t.subrange(i, t.len() as int));
    }
}

/// After a `::`, the last segment is whatever follows, when that holds no
/// `:`.
proof fn lemma_last_segment_after_separator(p: Seq<char>, n: Seq<char>)
    requires
        p.len() >= 2,
        p[p.len() - 2] == ':',
        p[p.len() - 1] == ':',
        forall|j: int| 0 <= j < n.len() ==> #[trigger] n[j] != ':',
    ensures
        last_segment(p + n) == n,
    decreases n.len(),
{
    if n.len() == 0 {
        assert(p + n =~= p);
    } else {
        let s = p + n;
        assert(s.last() == n.last());
        assert(n.last() == n[n.len() - 1]);
        lemma_last_segment_after_separator(p, n.drop_last());
        assert(s.drop_last() =~= p + n.drop_last());
        assert(n.drop_last().push(n.last()) =~= n);
    }
}

/// A qualified type name shows as its last segment: for a qualifier `q`
/// made of identifier characters (letters, digits, `_`) and `:` that ends
/// in `::`, and a name `n` of identifier characters, the display text of
/// `q + n` is `n` (so `orders::v2::OrderEvent` shows as `OrderEvent`).
pub proof fn lemma_display_qualified_name(q: Seq<char>, n: Seq<char>)
    requires
        q.len() >= 2,
        q[q.len() - 2] == ':',
        q[q.len() - 1] == ':',
        forall|j: int| 0 <= j < q.len() ==> is_ident_char(#[trigger] q[j]) || q[j] == ':',
        forall|j: int| 0 <= j < n.len() ==> is_ident_char(#[trigger] n[j]),
    ensures
        display_text(q + n) == n,
{
    let t = q + n;
    assert forall|j: int| 0 <= j < t.len() implies is_path_char(#[trigger] t[j]) && !crate::text::is_white_space(t[j]) by {
        if j < q.len() {
            assert(t[j] == q[j]);
        } else {
            assert(t[j] == n[j - q.len()]);
        }
    }
    assert(crate::text::leading_white(t) == 0) by {
        assert(!crate::text::is_white_space(t[0]));
    }
    assert(crate::text::trailing_white(t) == 0) by {
        assert(t.last() == t[t.len() - 1]);
        assert(!crate::text::is_white_space(t.last()));
    }
    assert(trimmed(t) =~= t);
    lemma_strip_path_run(t, 0, Seq::empty());
    assert(Seq::<char>::empty() + t.subrange(0, t.len() as int) =~= t);
    assert forall|j: int| 0 <= j < n.len() implies #[trigger] n[j] != ':' by {
        assert(is_ident_char(n[j]));
    }
    lemma_last_segment_after_separator(q, n);
}

/// A name of identifier characters alone has no qualifier to strip: it
/// shows unchanged, digits included.
pub proof fn lemma_display_plain_name(n: Seq<char>)
    requires
        forall|j: int| 0 <= j < n.len() ==> is_ident_char(#[trigger] n[j]),
    ensures
        display_text(n) == n,
{
    if n.len() > 0 {
        assert forall|j: int| 0 <= j < n.len() implies is_path_char(#[trigger] n[j]) && !crate::text::is_white_space(n[j]) by {
            assert(is_ident_char(n[j]));
        }
        assert(crate::text::leading_white(n) == 0) by {
            assert(!crate::text::is_white_space(n[0]));
        }
        assert(crate::text::trailing_white(n) == 0) by {
            assert(n.last() == n[n.len() - 1]);
            assert(!crate::text::is_white_space(n.last()));
        }
        assert(trimmed(n) =~= n);
        lemma_strip_path_run(n, 0, Seq::empty());
        assert(Seq::<char>::empty() + n.subrange(0, n.len() as int) =~= n);
        lemma_no_separator_whole(n);
    } else {
        assert(crate::text::leading_white(n) == 0);
        assert(trimmed(n) =~= n);
    }
}

/// A token without `:` is its own last segment.
proof fn lemma_no_separator_whole(n: Seq<char>)
    requires
        forall|j: int| 0 <= j < n.len() ==> is_ident_char(#[trigger] n[j]),
    ensures
        last_segment(n) == n,
    decreases n.len(),
{
    if n.len() >= 2 {
        assert(is_ident_char(n[n.len() - 1]));
        assert forall|j: int| 0 <= j < n.drop_last().len() implies is_ident_char(#[trigger] n.drop_last()[j]) by {
            assert(n.drop_last()[j] == n[j]);
        }
        lemma_no_separator_whole(n.drop_last());
        assert(n.drop_last().push(n.last()) =~= n);
    }
}

impl TypeHintInfo {
    /// Convenience constructor for an exact type hint.
    pub fn exact(name: &str) -> (r: TypeHintInfo)
        ensures
            r matches TypeHintInfo::Exact { name: n } && n@ == name@,
    {
        TypeHintInfo::Exact { name: String::from_str(name) }
    }

    /// Render the raw type name for UI display: path qualifiers are stripped
    /// (`crate::module::Type` becomes `Type`), everything else is kept.
    /// `None` for `Unspecified` and `Mixed`.
    pub fn display_name(&self) -> (r: Option<String>)
        ensures
            match self {
                TypeHintInfo::Exact { name } => r matches Some(s) && s@ == display_text(name@),
                _ => r is None,
            },
    {
        match self {
            TypeHintInfo::Exact { name } => Some(format_display_name(name.as_str())),
            TypeHintInfo::Unspecified | TypeHintInfo::Mixed => None,
        }
    }
}

/// Authoring-time stage typing contract. Positions that were not declared
/// are `Unspecified`.
#[derive(Clone, Debug, PartialEq, Eq)]
pub struct StageTypingInfo {
    pub input_type: TypeHintInfo,
    pub output_type: TypeHintInfo,
    pub boundary_in_type: TypeHintInfo,
    pub boundary_out_type: TypeHintInfo,
    pub reference_type: TypeHintInfo,
    pub stream_type: TypeHintInfo,
    pub is_placeholder: bool,
    pub placeholder_message: Option<String>,
}

impl StageTypingInfo {
    /// All positions `Unspecified`, not a placeholder.
    pub fn empty() -> (r: StageTypingInfo)
        ensures
            r.input_type is Unspecified,
            r.output_type is Unspecified,
            r.boundary_in_type is Unspecified,
            r.boundary_out_type is Unspecified,
            r.reference_type is Unspecified,
            r.stream_type is Unspecified,
            !r.is_placeholder,
            r.placeholder_message is None,
    {
        StageTypingInfo {
            input_type: TypeHintInfo::Unspecified,
            output_type: TypeHintInfo::Unspecified,
            boundary_in_type: TypeHintInfo::Unspecified,
            boundary_out_type: TypeHintInfo::Unspecified,
            reference_type: TypeHintInfo::Unspecified,
            stream_type: TypeHintInfo::Unspecified,
            is_placeholder: false,
            placeholder_message: None,
        }
    }
}

/// Per-edge payload typing projection.
#[derive(Clone, Debug, PartialEq, Eq)]
pub struct EdgeTypingInfo {
    pub role: EdgeTypingRole,
    pub label_source: EdgeTypingLabelSource,
    pub payload_type: TypeHintInfo,
}

impl EdgeTypingInfo {
    pub fn new(role: EdgeTypingRole, label_source: EdgeTypingLabelSource, payload_type: TypeHintInfo) -> (r: EdgeTypingInfo)
        ensures
            r.role == role,
            r.label_source == label_source,
            r.payload_type == payload_type,
    {
        EdgeTypingInfo { role, label_source, payload_type }
    }
}

/// Role of an edge within a typed stage's input space.
#[derive(Clone, Copy, Debug, PartialEq, Eq, Structural)]
pub enum EdgeTypingRole {
    Input,
    Reference,
    Stream,
}

/// Which contract slot the edge label was projected from.
#[derive(Clone, Copy, Debug, PartialEq, Eq, Structural)]
pub enum EdgeTypingLabelSource {
    UpstreamOutputType,
    DownstreamInputType,
    DownstreamReferenceType,
    DownstreamStreamType,
}

/// Render a captured Rust type name for UI display.
fn format_display_name(name: &str) -> (r: String)
    ensures
        r@ == display_text(name@),
{
    strip_rust_path_qualifiers(name)
}

fn strip_rust_path_qualifiers(name: &str) -> (r: String)
    ensures
        r@ == display_text(name@),
{
    let t = trim_str(name);
    strip_path_qualifiers_trimmed(t)
}

/// Collapses every maximal run of path characters (`[A-Za-z0-9_:]`) of `t`
/// to the text after its last `::`; all other characters are kept.
pub fn strip_path_qualifiers_trimmed(t: &str) -> (r: String)
    ensures
        r@ == strip_paths(t@),
{
    let n = t.unicode_len();
    let mut result = String::new();
    let mut token: Vec<char> = Vec::new();
    let mut i: usize = 0;
    while i < n
        invariant
            n == t@.len(),
            i <= n,
            result@ + strip_from(t@, i as int, token@) == strip_paths(t@),
        decreases n - i,
    {
        let ch = t.get_char(i);
        if is_path_char_exec(ch) {
            let ghost tok0 = token@;
            token.push(ch);
            proof {
                assert(strip_from(t@, i as int, tok0) == strip_from(t@, i + 1, tok0.push(ch)));
            }
        } else {
            let ghost r0 = result@;
            let ghost tok0 = token@;
            push_final_path_segment(&mut result, &token);
            push_char(&mut result, ch);
            token = Vec::new();
            proof {
                assert(strip_from(t@, i as int, tok0) == last_segment(tok0) + seq![ch] + strip_from(t@, i + 1, Seq::empty()));
                assert(result@ == r0 + last_segment(tok0) + seq![ch]);
                assert(token@ =~= Seq::<char>::empty());
                assert(r0 + (last_segment(tok0) + seq![ch] + strip_from(t@, i + 1, Seq::empty()))
                    =~= r0 + last_segment(tok0) + seq![ch] + strip_from(t@, i + 1, Seq::empty()));
            }
        }
        i = i + 1;
    }
    push_final_path_segment(&mut result, &token);
    result
}

fn is_path_char_exec(c: char) -> (r: bool)
    ensures
        r == is_path_char(c),
{
    (c >= '0' && c <= '9') || (c >= 'a' && c <= 'z') || (c >= 'A' && c <= 'Z') || c == '_' || c == ':'
}

/// Appends the text after the last `::` of `token` (all of it if none).
fn push_final_path_segment(result: &mut String, token: &Vec<char>)
    ensures
        final(result)@ == old(result)@ + last_segment(token@),
{
    let len = token.len();
    if len == 0 {
        proof {
            assert(old(result)@ + last_segment(token@) =~= old(result)@);
        }
        return;
    }
    // Start of the text after the last "::".
    let mut start: usize = len;
    let mut found = false;
    proof {
        assert(token@.subrange(0, len as int) =~= token@);
        assert(last_segment(token@) + token@.subrange(len as int, len as int) =~= last_segment(token@));
    }
    while start >= 2 && !found
        invariant
            len == token@.len(),
            start <= len,
            found ==> start >= 2 && token@[start - 2] == ':' && token@[start - 1] == ':',
            last_segment(token@) == if found {
                token@.subrange(start as int, len as int)
            } else {
                last_segment(token@.subrange(0, start as int)) + token@.subrange(start as int, len as int)
            },
        decreases start, if found { 0int } else { 1int },
    {
        if token[start - 2] == ':' && token[start - 1] == ':' {
            proof {
                let pre = token@.subrange(0, start as int);
                assert(pre[pre.len() - 2] == ':' && pre[pre.len() - 1] == ':');
                assert(last_segment(pre) =~= Seq::<char>::empty());
                assert(Seq::<char>::empty() + token@.subrange(start as int, len as int) =~= token@.subrange(start as int, len as int));
            }
            found = true;
        } else {
            proof {
                let pre = token@.subrange(0, start as int);
                assert(pre.drop_last() =~= token@.subrange(0, start - 1));
                assert(last_segment(pre) == last_segment(pre.drop_last()).push(pre.last()));
                assert(last_segment(token@.subrange(0, start - 1)) + token@.subrange(start - 1, len as int)
                    =~= last_segment(token@.subrange(0, start - 1)).push(token@[start - 1]) + token@.subrange(start as int, len as int));
            }
            start = start - 1;
        }
    }
    if !found {
        proof {
            let pre = token@.subrange(0, start as int);
            assert(pre.len() < 2);
            assert(last_segment(pre) == pre);
            assert(pre + token@.subrange(start as int, len as int) =~= token@);
        }
        start = 0;
    }
    let mut k: usize = start;
    proof {
        assert(old(result)@ + token@.subrange(start as int, start as int) =~= old(result)@);
    }
    while k < len
        invariant
            len == token@.len(),
            start <= k <= len,
            result@ == old(result)@ + token@.subrange(start as int, k as int),
        decreases len - k,
    {
        let ghost r0 = result@;
        push_char(result, token[k]);
        proof {
            assert(token@.subrange(start as int, k + 1) =~= token@.subrange(start as int, k as int).push(token@[k as int]));
        }
        k = k + 1;
    }
}

} // verus!
