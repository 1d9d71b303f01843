//! Textual forms of themes: the appearance names a host passes in, and a
//! one-line description of each theme.

use vstd::prelude::*;
use vstd::string::StringExecFns;

use crate::abilities;
use crate::container::{Theme, ThemeTag};
use crate::error::{append_hex_digit, hex_digit_text};
use crate::text::{chars_of, span_is};

verus! {

/// The appearance a mode name asks for: `"dark"`, `"high-contrast"` (or
/// `"high_contrast"`), and light for anything else.
pub open spec fn spec_mode_tag(s: Seq<char>) -> ThemeTag {
    if s == "dark"@ {
        ThemeTag::Dark
    } else if s == "high-contrast"@ || s == "high_contrast"@ {
        ThemeTag::HighContrast
    } else {
        ThemeTag::Light
    }
}

impl ThemeTag {
    /// The appearance a host's mode name asks for (light when the name is unknown).
    pub fn from_mode(s: &str) -> (t: ThemeTag)
        ensures
            t == spec_mode_tag(s@),
    {
        let n = chars_of(s);
        assert(n@.subrange(0, n@.len() as int) =~= n@);
        if span_is(&n, 0, n.len(), "dark") {
            ThemeTag::Dark
        } else if span_is(&n, 0, n.len(), "high-contrast") || span_is(&n, 0, n.len(), "high_contrast") {
            ThemeTag::HighContrast
        } else {
            ThemeTag::Light
        }
    }
}

/// A theme's abilities as text: the names of its ability bits joined by `+`
/// (light, dark, high-contrast, in that order), or `none`.
pub open spec fn abilities_text(a: u8) -> Seq<char> {
    let l = a & abilities::LIGHT != 0;
    let d = a & abilities::DARK != 0;
    let h = a & abilities::HIGH_CONTRAST != 0;
    if !l && !d && !h {
        "none"@
    } else {
        (if l {
            "light"@
        } else {
            Seq::empty()
        }) + (if d {
            (if l {
                "+"@
            } else {
                Seq::empty()
            }) + "dark"@
        } else {
            Seq::empty()
        }) + (if h {
            (if l || d {
                "+"@
            } else {
                Seq::empty()
            }) + "high-contrast"@
        } else {
            Seq::empty()
        })
    }
}

/// Two lowercase hexadecimal digits of a byte.
pub open spec fn hex_byte_text(b: u8) -> Seq<char> {
    hex_digit_text((b / 16) as nat) + hex_digit_text((b % 16) as nat)
}

/// One theme as text: `"<abilities> #rrggbb"`.
pub open spec fn theme_line(t: Theme) -> Seq<char> {
    abilities_text(t.abilities) + " #"@ + hex_byte_text(t.base_color[0]) + hex_byte_text(
        t.base_color[1],
    ) + hex_byte_text(t.base_color[2])
}

/// The themes' lines joined by newlines, in order.
pub open spec fn themes_text(themes: Seq<Theme>) -> Seq<char>
    decreases themes.len(),
{
    if themes.len() == 0 {
        Seq::empty()
    } else if themes.len() == 1 {
        theme_line(themes[0])
    } else {
        themes_text(themes.drop_last()) + "\n"@ + theme_line(themes.last())
    }
}

fn append_theme_line(s: &mut String, t: &Theme)
    ensures
        final(s)@ == old(s)@ + theme_line(*t),
{
    let ghost start = s@;
    let a = t.abilities;
    let l = a & abilities::LIGHT != 0;
    let d = a & abilities::DARK != 0;
    let h = a & abilities::HIGH_CONTRAST != 0;
    if !l && !d && !h {
        s.append("none");
    } else {
        if l {
            s.append("light");
        }
        if d {
            if l {
                s.append("+");
            }
            s.append("dark");
        }
        if h {
            if l || d {
                s.append("+");
            }
            s.append("high-contrast");
        }
    }
    assert(s@ =~= start + abilities_text(a));
    s.append(" #");
    let mut k: usize = 0;
    while k < 3
        invariant
            k <= 3,
            s@ == start + abilities_text(a) + " #"@ + (if k == 0 {
                Seq::<char>::empty()
            } else if k == 1 {
                hex_byte_text(t.base_color[0])
            } else if k == 2 {
                hex_byte_text(t.base_color[0]) + hex_byte_text(t.base_color[1])
            } else {
                hex_byte_text(t.base_color[0]) + hex_byte_text(t.base_color[1]) + hex_byte_text(
                    t.base_color[2],
                )
            }),
        decreases 3 - k,
    {
        let b = t.base_color[k];
        append_hex_digit(s, b / 16);
        append_hex_digit(s, b % 16);
        k = k + 1;
        assert(s@ =~= start + abilities_text(a) + " #"@ + (if k == 1 {
            hex_byte_text(t.base_color[0])
        } else if k == 2 {
            hex_byte_text(t.base_color[0]) + hex_byte_text(t.base_color[1])
        } else {
            hex_byte_text(t.base_color[0]) + hex_byte_text(t.base_color[1]) + hex_byte_text(
                t.base_color[2],
            )
        }));
    }
    assert(s@ =~= start + theme_line(*t));
}

/// A newline-joined description of the themes, one line per theme in order:
/// its abilities (`light+dark`, ..., or `none`) then `#rrggbb` of its base color.
pub fn themes_description(themes: &[Theme]) -> (s: String)
    ensures
        s@ == themes_text(themes@),
{
    let mut s = String::new();
    let mut i: usize = 0;
    assert(themes@.take(0) =~= Seq::<Theme>::empty());
    assert(s@ =~= Seq::<char>::empty());
    while i < themes.len()
        invariant
            i <= themes@.len(),
            s@ == themes_text(themes@.take(i as int)),
        decreases themes.len() - i,
    {
        let ghost before = s@;
        if i > 0 {
            s.append("\n");
        }
        append_theme_line(&mut s, &themes[i]);
        proof {
            let t = themes@.take(i + 1);
            assert(t.drop_last() =~= themes@.take(i as int));
            assert(t.last() == themes@[i as int]);
            if i == 0 {
                assert(s@ =~= theme_line(t[0]));
            } else {
                assert(s@ =~= themes_text(t.drop_last()) + "\n"@ + theme_line(t.last()));
            }
        }
        i = i + 1;
    }
    assert(themes@.take(themes@.len() as int) =~= themes@);
    s
}

} // verus!
