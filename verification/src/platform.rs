//! What the app needs from its platform that is not the DOM itself: the
//! router base path, links under it, fresh identifiers and colours.

use vstd::prelude::*;
use crate::color::{Color, spec_from_hex};
use crate::ids::Id;
use crate::text::{chars_of, concat_str, str_eq, push_char, string_of};
use vstd::string::*;

verus! {

/// The platform's helpers.
pub struct Platform;

/// The text without its trailing `/` characters.
pub open spec fn trim_trailing_slashes(s: Seq<char>) -> Seq<char>
    decreases s.len(),
{
    if s.len() > 0 && s.last() == '/' {
        trim_trailing_slashes(s.drop_last())
    } else {
        s
    }
}

/// The router base for a configured public URL: none for an unset, empty or
/// root (`/`) URL, else the URL without trailing slashes.
pub open spec fn spec_normalize_base(public_url: Option<Seq<char>>) -> Seq<char> {
    match public_url {
        Some(u) => if u.len() > 0 && u != seq!['/'] {
            trim_trailing_slashes(u)
        } else {
            Seq::empty()
        },
        None => Seq::empty(),
    }
}

pub open spec fn opt_str_view(o: Option<&str>) -> Option<Seq<char>> {
    match o {
        Some(s) => Some(s@),
        None => None,
    }
}

/// The lower-case hex digits of `n`, most significant first, without leading
/// zeros (`0` is written `0`).
pub open spec fn lower_hex(n: nat) -> Seq<char>
    decreases n,
{
    if n < 16 {
        seq![crate::color::digit_char(n as int)]
    } else {
        lower_hex(n / 16) + seq![crate::color::digit_char((n % 16) as int)]
    }
}

/// The palette from which new categories draw a colour.
pub open spec fn palette_hex(i: int) -> Seq<char> {
    if i == 0 { "#ef4444"@ }
    else if i == 1 { "#f97316"@ }
    else if i == 2 { "#f59e0b"@ }
    else if i == 3 { "#eab308"@ }
    else if i == 4 { "#84cc16"@ }
    else if i == 5 { "#22c55e"@ }
    else if i == 6 { "#10b981"@ }
    else if i == 7 { "#14b8a6"@ }
    else if i == 8 { "#06b6d4"@ }
    else if i == 9 { "#3b82f6"@ }
    else if i == 10 { "#6366f1"@ }
    else if i == 11 { "#8b5cf6"@ }
    else if i == 12 { "#a855f7"@ }
    else if i == 13 { "#d946ef"@ }
    else if i == 14 { "#ec4899"@ }
    else { "#f43f5e"@ }
}

/// The number of palette colours.
pub const PALETTE_LEN: usize = 16;

fn trim_end_slashes(s: &str) -> (r: &str)
    ensures
        r@ == trim_trailing_slashes(s@),
{
    let cs = chars_of(s);
    let mut end: usize = cs.len();
    assert(s@.subrange(0, end as int) =~= s@);
    while end > 0 && cs[end - 1] == '/'
        invariant
            end <= cs@.len(),
            cs@ == s@,
            trim_trailing_slashes(s@) == trim_trailing_slashes(s@.subrange(0, end as int)),
        decreases end,
    {
        assert(s@.subrange(0, end as int).drop_last() =~= s@.subrange(0, end - 1));
        end = end - 1;
    }
    s.substring_char(0, end)
}

fn hex_digit_char(v: u64) -> (r: char)
    requires
        v < 16,
    ensures
        r == crate::color::digit_char(v as int),
{
    if v < 10 {
        ((48u8 + v as u8) as char)
    } else {
        ((87u8 + v as u8) as char)
    }
}

/// The lower-case hex text of `n`.
fn hex_text(n: u64) -> (r: String)
    ensures
        r@ == lower_hex(n as nat),
    decreases n,
{
    if n < 16 {
        let mut s = String::new();
        push_char(&mut s, hex_digit_char(n));
        assert(s@ =~= lower_hex(n as nat));
        s
    } else {
        let mut s = hex_text(n / 16);
        push_char(&mut s, hex_digit_char(n % 16));
        s
    }
}

impl Platform {
    /// The router base path for a configured public URL: `""` when unset,
    /// empty or `/`, else the URL without trailing slashes.
    pub fn normalize_base(public_url: Option<&str>) -> (r: &str)
        ensures
            r@ == spec_normalize_base(opt_str_view(public_url)),
    {
        match public_url {
            Some(url) => {
                let cs = chars_of(url);
                let slash = "/";
                proof {
                    reveal_strlit("/");
                }
                assert(slash@ =~= seq!['/']);
                if cs.len() > 0 && !str_eq(url, slash) {
                    trim_end_slashes(url)
                } else {
                    let e = "";
                    proof {
                        reveal_strlit("");
                    }
                    assert(e@ =~= Seq::<char>::empty());
                    e
                }
            },
            None => {
                let e = "";
                proof {
                    reveal_strlit("");
                }
                assert(e@ =~= Seq::<char>::empty());
                e
            },
        }
    }

    /// The router base for the configured base path (the build's
    /// `CUMULO_BASE_PATH`).
    pub fn router_base(configured: Option<&'static str>) -> (r: &'static str)
        ensures
            r@ == spec_normalize_base(opt_str_view(configured)),
    {
        Platform::normalize_base(configured)
    }

    /// An absolute route under the base path: the base followed by the route.
    pub fn join_base(base: &str, route: &str) -> (r: String)
        ensures
            r@ == base@ + route@,
    {
        concat_str(base, route)
    }

    /// A link to `route` under the router base of the configured base path.
    pub fn href(configured: Option<&'static str>, route: &str) -> (r: String)
        ensures
            r@ == spec_normalize_base(opt_str_view(configured)) + route@,
    {
        Platform::join_base(Platform::router_base(configured), route)
    }

    /// The category identifier `node<hex>` for a drawn number.
    pub fn node_id_from(n: u64) -> (r: Id)
        ensures
            r@ == "node"@ + lower_hex(n as nat),
    {
        let h = hex_text(n);
        let t = concat_str("node", h.as_str());
        proof {
            reveal_strlit("node");
        }
        assert(t@.len() > 0);
        match Id::from_string(t) {
            Some(id) => id,
            None => {
                assert(false);
                Id::from_string(String::from_str("node")).unwrap()
            },
        }
    }

    /// The resource identifier `r<hex>` for a drawn number.
    pub fn resource_id_from(n: u64) -> (r: Id)
        ensures
            r@ == "r"@ + lower_hex(n as nat),
    {
        let h = hex_text(n);
        let t = concat_str("r", h.as_str());
        proof {
            reveal_strlit("r");
        }
        assert(t@.len() > 0);
        match Id::from_string(t) {
            Some(id) => id,
            None => {
                assert(false);
                Id::from_string(String::from_str("r")).unwrap()
            },
        }
    }

    /// The palette colour for a drawn index; indexes past the end take the
    /// last colour.
    pub fn palette_color(idx: usize) -> (r: Color)
        ensures
            Some(r) == spec_from_hex(palette_hex(if idx < PALETTE_LEN { idx as int } else { PALETTE_LEN - 1 })),
    {
        let i = if idx < PALETTE_LEN { idx } else { PALETTE_LEN - 1 };
        let hex = if i == 0 { "#ef4444" }
        else if i == 1 { "#f97316" }
        else if i == 2 { "#f59e0b" }
        else if i == 3 { "#eab308" }
        else if i == 4 { "#84cc16" }
        else if i == 5 { "#22c55e" }
        else if i == 6 { "#10b981" }
        else if i == 7 { "#14b8a6" }
        else if i == 8 { "#06b6d4" }
        else if i == 9 { "#3b82f6" }
        else if i == 10 { "#6366f1" }
        else if i == 11 { "#8b5cf6" }
        else if i == 12 { "#a855f7" }
        else if i == 13 { "#d946ef" }
        else if i == 14 { "#ec4899" }
        else { "#f43f5e" };
        assert(hex@ == palette_hex(i as int));
        match Color::from_hex(hex) {
            Some(c) => c,
            None => {
                proof {
                    lemma_palette_parses(i as int);
                }
                Color::rgb(0, 0, 0)
            },
        }
    }
}

proof fn lemma_palette_parses(i: int)
    requires
        0 <= i < 16,
    ensures
        spec_from_hex(palette_hex(i)) is Some,
{
    reveal_strlit("#ef4444");
    reveal_strlit("#f97316");
    reveal_strlit("#f59e0b");
    reveal_strlit("#eab308");
    reveal_strlit("#84cc16");
    reveal_strlit("#22c55e");
    reveal_strlit("#10b981");
    reveal_strlit("#14b8a6");
    reveal_strlit("#06b6d4");
    reveal_strlit("#3b82f6");
    reveal_strlit("#6366f1");
    reveal_strlit("#8b5cf6");
    reveal_strlit("#a855f7");
    reveal_strlit("#d946ef");
    reveal_strlit("#ec4899");
    reveal_strlit("#f43f5e");
    let s = palette_hex(i);
    let t = crate::color::strip_hash(s);
    assert(t =~= s.drop_first());
    assert(crate::color::all_ascii(t));
}

} // verus!
