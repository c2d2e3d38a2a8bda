//! Settings of the snapshot command: screenshots of items from several
//! angles in a small generated world.
use vstd::prelude::*;
use vstd::string::{StrSliceExecFns, StringExecFns};

verus! {

pub struct SnapArgs {
    /// Screenshot width in pixels
    pub width: i32,
    /// Screenshot height in pixels
    pub height: i32,
    /// Number of camera angles around each item
    pub angles: usize,
    /// World seed
    pub seed: i32,
    /// Number of chunks along X
    pub chunks_x: usize,
    /// Hint for the number of vertical chunks to pre-stream
    pub chunks_y_hint: usize,
    /// Number of chunks along Z
    pub chunks_z: usize,
    /// Worldgen config path (TOML)
    pub world_config: String,
}

impl Default for SnapArgs {
    /// The command's defaults.
    fn default() -> (r: SnapArgs)
        ensures
            r.width == 512 && r.height == 512 && r.angles == 8 && r.seed == 1337,
            r.chunks_x == 4 && r.chunks_y_hint == 8 && r.chunks_z == 4,
            r.world_config@ == "assets/worldgen/worldgen.toml"@,
    {
        SnapArgs {
            width: 512,
            height: 512,
            angles: 8,
            seed: 1337,
            chunks_x: 4,
            chunks_y_hint: 8,
            chunks_z: 4,
            world_config: "assets/worldgen/worldgen.toml".to_owned(),
        }
    }
}

/// Characters kept as they are in a file name: ASCII letters and digits,
/// `-` and `_`.
pub open spec fn is_name_char(c: char) -> bool {
    ('0' <= c && c <= '9') || ('a' <= c && c <= 'z') || ('A' <= c && c <= 'Z') || c == '-' || c == '_'
}

/// `s` with every character that is not a name character replaced by `_`.
pub open spec fn sanitized(s: Seq<char>) -> Seq<char> {
    s.map_values(|c: char| if is_name_char(c) { c } else { '_' })
}

/// A name made safe for a file name (see `sanitized`).
pub fn sanitize_name(s: &str) -> (r: String)
    ensures
        r@ == sanitized(s@),
{
    let n = s.unicode_len();
    let mut out = String::new();
    let mut i: usize = 0;
    while i < n
        invariant
            n == s@.len(),
            i <= n,
            out@ == sanitized(s@.subrange(0, i as int)),
        decreases n - i,
    {
        let c = s.get_char(i);
        if ('0' <= c && c <= '9') || ('a' <= c && c <= 'z') || ('A' <= c && c <= 'Z') || c == '-' || c == '_' {
            out.append(s.substring_char(i, i + 1));
        } else {
            proof { reveal_strlit("_"); }
            out.append("_");
        }
        assert(sanitized(s@.subrange(0, i + 1)) =~= sanitized(s@.subrange(0, i as int)) + seq![if is_name_char(c) { c } else { '_' }]);
        i = i + 1;
    }
    assert(s@.subrange(0, n as int) =~= s@);
    out
}

/// The XML escape of one character.
pub open spec fn xml_escape_char(c: char) -> Seq<char> {
    if c == '&' {
        "&amp;"@
    } else if c == '"' {
        "&quot;"@
    } else if c == '\'' {
        "&apos;"@
    } else if c == '<' {
        "&lt;"@
    } else if c == '>' {
        "&gt;"@
    } else {
        seq![c]
    }
}

/// `s` with each character replaced by its XML escape.
pub open spec fn xml_escaped(s: Seq<char>) -> Seq<char>
    decreases s.len(),
{
    if s.len() == 0 {
        Seq::empty()
    } else {
        xml_escaped(s.drop_last()) + xml_escape_char(s.last())
    }
}

/// Escapes the five XML special characters of `s`.
pub fn escape_xml(s: &str) -> (r: String)
    ensures
        r@ == xml_escaped(s@),
{
    let n = s.unicode_len();
    let mut out = String::new();
    let mut i: usize = 0;
    while i < n
        invariant
            n == s@.len(),
            i <= n,
            out@ == xml_escaped(s@.subrange(0, i as int)),
        decreases n - i,
    {
        let c = s.get_char(i);
        assert(s@.subrange(0, i + 1).drop_last() =~= s@.subrange(0, i as int));
        if c == '&' {
            out.append("&amp;");
        } else if c == '"' {
            out.append("&quot;");
        } else if c == '\'' {
            out.append("&apos;");
        } else if c == '<' {
            out.append("&lt;");
        } else if c == '>' {
            out.append("&gt;");
        } else {
            out.append(s.substring_char(i, i + 1));
        }
        i = i + 1;
    }
    assert(s@.subrange(0, n as int) =~= s@);
    out
}

} // verus!
