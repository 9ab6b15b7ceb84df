//! The wallpaper patch: a marked block of CSS appended to the app's main style
//! sheet. Building the block from its templates, stripping earlier blocks out
//! of a style sheet, and the content written back when a patch is applied or
//! removed. Applying twice gives the same sheet as applying once, and applying
//! then removing gives the sheet back.
use vstd::prelude::*;
use crate::text::{
    chars_of, contains, contains_exec, find_exec, find_from, is_white_space, lacks_char, lemma_find_from,
    lemma_find_from_is, lemma_find_from_none, lemma_match_char, lemma_matches_in_prefix,
    lemma_find_from_some, lemma_matches_in_suffix, lemma_replace_all_absent, lemma_replace_all_concat,
    lemma_replace_all_lacks, lemma_trim_end, lemma_trim_end_append_space, lemma_trim_end_fixed,
    matches_at, push_all, push_chars, replace_all, replace_all_exec, slice_chars, string_of,
    trim_end, trim_end_len,
};

verus! {

/// Every patch block begins with this text.
pub const PATCH_START: &'static str = "/* === kimi-wallpaper-patch";

/// The first line of a patch block.
pub const PATCH_HEADER: &'static str = "/* === kimi-wallpaper-patch === */";

/// A patch block ends with this text.
pub const PATCH_END_MARK: &'static str = "kimi-wallpaper-patch end === */";

/// The last line of a patch block, newline included.
pub const PATCH_END_LINE: &'static str = "/* === kimi-wallpaper-patch end === */\n";

/// Placeholder for the base64 image data.
pub const KEY_B64: &'static str = "{B64}";
/// Placeholder for the dark mask opacity.
pub const KEY_DA: &'static str = "{DA}";
/// Placeholder for the light mask opacity.
pub const KEY_LA: &'static str = "{LA}";
/// Placeholder for the side bar opacity.
pub const KEY_SA: &'static str = "{SA}";
/// Placeholder for the panel opacity.
pub const KEY_PA: &'static str = "{PA}";
/// Placeholder for the image MIME type.
pub const KEY_MIME: &'static str = "{MIME}";

/// Rules for the dark color scheme.
pub const DARK_TEMPLATE: &'static str = r#":root{--kimi-wallpaper-dark:url("data:{MIME};base64,{B64}")}
html[data-color-scheme=dark]{--kimi-wallpaper-mask:rgba(7,7,13,{DA})}
html[data-color-scheme=dark]{background-color:#0a0a10;background-image:linear-gradient(rgba(7,7,13,{DA}),rgba(7,7,13,{DA})),var(--kimi-wallpaper-dark) !important;background-size:cover,cover;background-position:center,center;background-repeat:no-repeat,no-repeat;background-attachment:fixed,fixed}
html[data-color-scheme=dark] .app,html[data-color-scheme=dark] .con,html[data-color-scheme=dark] body,html[data-color-scheme=dark] #app{background:transparent !important}
html[data-color-scheme=dark] .side,html[data-color-scheme=dark] .windows-titlebar{background:rgba(10,10,17,{SA}) !important}
html[data-color-scheme=dark] .global-preview,html[data-color-scheme=dark] .agent-panel,html[data-color-scheme=dark] .global-preview .file-preview,html[data-color-scheme=dark] .global-preview .fp-body,html[data-color-scheme=dark] .global-preview .ui-panel-header{background:rgba(10,10,17,{PA}) !important}
html[data-color-scheme=dark] .chat-header,html[data-color-scheme=dark] .topbar{background:rgba(10,10,17,{PA}) !important}
html[data-color-scheme=dark] .chat-dock:before{opacity:.45 !important}
@media (prefers-color-scheme:dark){
html[data-color-scheme=system]{--kimi-wallpaper-mask:rgba(7,7,13,{DA})}
html[data-color-scheme=system]{background-color:#0a0a10;background-image:linear-gradient(rgba(7,7,13,{DA}),rgba(7,7,13,{DA})),var(--kimi-wallpaper-dark) !important;background-size:cover,cover;background-position:center,center;background-repeat:no-repeat,no-repeat;background-attachment:fixed,fixed}
html[data-color-scheme=system] .app,html[data-color-scheme=system] .con,html[data-color-scheme=system] body,html[data-color-scheme=system] #app{background:transparent !important}
html[data-color-scheme=system] .side,html[data-color-scheme=system] .windows-titlebar{background:rgba(10,10,17,{SA}) !important}
html[data-color-scheme=system] .global-preview,html[data-color-scheme=system] .agent-panel,html[data-color-scheme=system] .global-preview .file-preview,html[data-color-scheme=system] .global-preview .fp-body,html[data-color-scheme=system] .global-preview .ui-panel-header{background:rgba(10,10,17,{PA}) !important}
html[data-color-scheme=system] .chat-header,html[data-color-scheme=system] .topbar{background:rgba(10,10,17,{PA}) !important}
html[data-color-scheme=system] .chat-dock:before{opacity:.45 !important}
}
"#;

/// Rules for the light color scheme.
pub const LIGHT_TEMPLATE: &'static str = r#":root{--kimi-wallpaper-light:url("data:{MIME};base64,{B64}")}
html[data-color-scheme=light]{--kimi-wallpaper-mask:rgba(250,250,252,{LA})}
html[data-color-scheme=light]{background-color:#f5f5f7;background-image:linear-gradient(rgba(250,250,252,{LA}),rgba(250,250,252,{LA})),var(--kimi-wallpaper-light) !important;background-size:cover,cover;background-position:center,center;background-repeat:no-repeat,no-repeat;background-attachment:fixed,fixed}
html[data-color-scheme=light] .app,html[data-color-scheme=light] .con,html[data-color-scheme=light] body,html[data-color-scheme=light] #app{background:transparent !important}
html[data-color-scheme=light] .side,html[data-color-scheme=light] .windows-titlebar{background:rgba(255,255,255,{SA}) !important}
html[data-color-scheme=light] .global-preview,html[data-color-scheme=light] .agent-panel,html[data-color-scheme=light] .global-preview .file-preview,html[data-color-scheme=light] .global-preview .fp-body,html[data-color-scheme=light] .global-preview .ui-panel-header{background:rgba(255,255,255,{PA}) !important}
html[data-color-scheme=light] .chat-header,html[data-color-scheme=light] .topbar{background:rgba(255,255,255,{PA}) !important}
html[data-color-scheme=light] .chat-dock:before{opacity:.45 !important}
@media (prefers-color-scheme:light){
html[data-color-scheme=system]{--kimi-wallpaper-mask:rgba(250,250,252,{LA})}
html[data-color-scheme=system]{background-color:#f5f5f7;background-image:linear-gradient(rgba(250,250,252,{LA}),rgba(250,250,252,{LA})),var(--kimi-wallpaper-light) !important;background-size:cover,cover;background-position:center,center;background-repeat:no-repeat,no-repeat;background-attachment:fixed,fixed}
html[data-color-scheme=system] .app,html[data-color-scheme=system] .con,html[data-color-scheme=system] body,html[data-color-scheme=system] #app{background:transparent !important}
html[data-color-scheme=system] .side,html[data-color-scheme=system] .windows-titlebar{background:rgba(255,255,255,{SA}) !important}
html[data-color-scheme=system] .global-preview,html[data-color-scheme=system] .agent-panel,html[data-color-scheme=system] .global-preview .file-preview,html[data-color-scheme=system] .global-preview .fp-body,html[data-color-scheme=system] .global-preview .ui-panel-header{background:rgba(255,255,255,{PA}) !important}
html[data-color-scheme=system] .chat-header,html[data-color-scheme=system] .topbar{background:rgba(255,255,255,{PA}) !important}
html[data-color-scheme=system] .chat-dock:before{opacity:.45 !important}
}
"#;

/// What one color scheme's wallpaper is made of: the base64 image data, the
/// mask opacity as it is to be written (two decimals) and the MIME type.
pub open spec fn slot_view(s: (&str, &str, &str)) -> (Seq<char>, Seq<char>, Seq<char>) {
    (s.0@, s.1@, s.2@)
}

/// An optional slot, viewed.
pub open spec fn slot_opt(s: Option<(&str, &str, &str)>) -> Option<(Seq<char>, Seq<char>, Seq<char>)> {
    match s {
        Some(x) => Some(slot_view(x)),
        None => None,
    }
}

/// An optional text, viewed.
pub open spec fn text_opt(s: Option<&str>) -> Option<Seq<char>> {
    match s {
        Some(x) => Some(x@),
        None => None,
    }
}

/// The dark template with its placeholders filled in, one after the other.
pub open spec fn render_dark(b64: Seq<char>, da: Seq<char>, sa: Seq<char>, pa: Seq<char>, mime: Seq<char>) -> Seq<char> {
    replace_all(
        replace_all(
            replace_all(
                replace_all(replace_all(DARK_TEMPLATE@, KEY_B64@, b64), KEY_DA@, da),
                KEY_SA@,
                sa,
            ),
            KEY_PA@,
            pa,
        ),
        KEY_MIME@,
        mime,
    )
}

/// The light template with its placeholders filled in, one after the other.
pub open spec fn render_light(b64: Seq<char>, la: Seq<char>, sa: Seq<char>, pa: Seq<char>, mime: Seq<char>) -> Seq<char> {
    replace_all(
        replace_all(
            replace_all(
                replace_all(replace_all(LIGHT_TEMPLATE@, KEY_B64@, b64), KEY_LA@, la),
                KEY_SA@,
                sa,
            ),
            KEY_PA@,
            pa,
        ),
        KEY_MIME@,
        mime,
    )
}

/// A patch block around the given rules.
pub open spec fn patch_with_body(body: Seq<char>) -> Seq<char> {
    PATCH_HEADER@ + seq!['\n'] + body + PATCH_END_LINE@
}

/// The patch for the given slots: none when both are empty.
pub open spec fn build_patch_spec(
    dark: Option<(Seq<char>, Seq<char>, Seq<char>)>,
    light: Option<(Seq<char>, Seq<char>, Seq<char>)>,
    sa: Seq<char>,
    pa: Seq<char>,
) -> Option<Seq<char>> {
    if dark is None && light is None {
        None
    } else {
        let d = match dark {
            Some((b, a, m)) => render_dark(b, a, sa, pa, m),
            None => Seq::empty(),
        };
        let l = match light {
            Some((b, a, m)) => render_light(b, a, sa, pa, m),
            None => Seq::empty(),
        };
        Some(patch_with_body(d + l))
    }
}

/// A style sheet with every patch block removed: from the first start marker
/// to the end of the first end marker after it, again and again, until no
/// start marker is followed by an end marker.
pub open spec fn strip_patch_spec(css: Seq<char>) -> Seq<char>
    decreases css.len(),
{
    match find_from(css, PATCH_START@, 0) {
        None => css,
        Some(st) => match find_from(css, PATCH_END_MARK@, st) {
            None => css,
            Some(e) => {
                proof {
                    lemma_marks();
                    lemma_find_from(css, PATCH_START@, 0);
                    lemma_find_from(css, PATCH_END_MARK@, st);
                }
                strip_patch_spec(
                    css.subrange(0, st) + css.subrange(e + PATCH_END_MARK@.len(), css.len() as int),
                )
            },
        },
    }
}

/// The style sheet written when a patch is applied (`Some`) or removed (`None`):
/// earlier blocks stripped, trailing white space trimmed, then the new block
/// after an empty line, and a final newline.
pub open spec fn patched_css_spec(content: Seq<char>, patch: Option<Seq<char>>) -> Seq<char> {
    let t = trim_end(strip_patch_spec(content));
    match patch {
        Some(p) => {
            let n = t + seq!['\n', '\n'] + p;
            if n.last() == '\n' {
                n
            } else {
                n.push('\n')
            }
        },
        None => t.push('\n'),
    }
}

// ---------------------------------------------------------------------------
// Facts about the markers and templates
// ---------------------------------------------------------------------------

/// The markers, character by character where it matters.
pub proof fn lemma_marks()
    ensures
        PATCH_START@.len() == 27,
        PATCH_HEADER@.len() == 34,
        PATCH_END_MARK@.len() == 31,
        PATCH_END_LINE@.len() == 39,
        PATCH_HEADER@.subrange(0, 27) == PATCH_START@,
        PATCH_END_LINE@.subrange(7, 38) == PATCH_END_MARK@,
        PATCH_END_LINE@[38] == '\n',
        lacks_char(PATCH_START@, '\n'),
        PATCH_END_MARK@[0] == 'k',
        PATCH_END_MARK@[29] == '*',
        PATCH_END_MARK@[30] == '/',
        PATCH_HEADER@[3] == '=',
        PATCH_END_LINE@[2] == ' ',
        forall|k: int| 0 <= k < 34 && #[trigger] PATCH_HEADER@[k] == '*' ==> k == 1 || k == 32,
        forall|k: int| 0 <= k < 39 && #[trigger] PATCH_END_LINE@[k] == '*' ==> k == 1 || k == 36,
        KEY_B64@.len() > 0,
        KEY_DA@.len() > 0,
        KEY_LA@.len() > 0,
        KEY_SA@.len() > 0,
        KEY_PA@.len() > 0,
        KEY_MIME@.len() > 0,
{
    reveal_strlit("/* === kimi-wallpaper-patch");
    reveal_strlit("/* === kimi-wallpaper-patch === */");
    reveal_strlit("kimi-wallpaper-patch end === */");
    reveal_strlit("/* === kimi-wallpaper-patch end === */\n");
    reveal_strlit("{B64}");
    reveal_strlit("{DA}");
    reveal_strlit("{LA}");
    reveal_strlit("{SA}");
    reveal_strlit("{PA}");
    reveal_strlit("{MIME}");
    assert(PATCH_HEADER@.subrange(0, 27) =~= PATCH_START@);
    assert(PATCH_END_LINE@.subrange(7, 38) =~= PATCH_END_MARK@);
}

/// Neither template holds a `*`, so no patch marker can arise inside the rules;
/// and where the side bar and top bar rules, with their placeholders, stand in
/// each.
pub proof fn lemma_templates_lack_star()
    ensures
        lacks_char(DARK_TEMPLATE@, '*'),
        lacks_char(LIGHT_TEMPLATE@, '*'),
        DARK_TEMPLATE@.len() >= 1150,
        LIGHT_TEMPLATE@.len() >= 1191,
        DARK_TEMPLATE@.subrange(663, 723) == side_rule(false) + KEY_SA@ + rule_end(),
        DARK_TEMPLATE@.subrange(1100, 1150) == panel_rule(false) + KEY_PA@ + rule_end(),
        LIGHT_TEMPLATE@.subrange(688, 751) == side_rule(true) + KEY_SA@ + rule_end(),
        LIGHT_TEMPLATE@.subrange(1138, 1191) == panel_rule(true) + KEY_PA@ + rule_end(),
        DARK_TEMPLATE@.subrange(90, 135) == mask_rule(false) + KEY_DA@ + (mask_end() + "\nhtml"@),
        LIGHT_TEMPLATE@.subrange(92, 142) == mask_rule(true) + KEY_LA@ + (mask_end() + "\nhtml"@),
{
    reveal_strlit("{DA}");
    reveal_strlit("{LA}");
    reveal_strlit("--kimi-wallpaper-mask:rgba(250,250,252,");
    reveal_strlit("--kimi-wallpaper-mask:rgba(7,7,13,");
    reveal_strlit(")}");
    reveal_strlit("\nhtml");
    reveal_strlit("{SA}");
    reveal_strlit("{PA}");
    reveal_strlit(".windows-titlebar{background:rgba(255,255,255,");
    reveal_strlit(".windows-titlebar{background:rgba(10,10,17,");
    reveal_strlit(".topbar{background:rgba(255,255,255,");
    reveal_strlit(".topbar{background:rgba(10,10,17,");
    reveal_strlit(") !important}");
    reveal_strlit(r#":root{--kimi-wallpaper-dark:url("data:{MIME};base64,{B64}")}
html[data-color-scheme=dark]{--kimi-wallpaper-mask:rgba(7,7,13,{DA})}
html[data-color-scheme=dark]{background-color:#0a0a10;background-image:linear-gradient(rgba(7,7,13,{DA}),rgba(7,7,13,{DA})),var(--kimi-wallpaper-dark) !important;background-size:cover,cover;background-position:center,center;background-repeat:no-repeat,no-repeat;background-attachment:fixed,fixed}
html[data-color-scheme=dark] .app,html[data-color-scheme=dark] .con,html[data-color-scheme=dark] body,html[data-color-scheme=dark] #app{background:transparent !important}
html[data-color-scheme=dark] .side,html[data-color-scheme=dark] .windows-titlebar{background:rgba(10,10,17,{SA}) !important}
html[data-color-scheme=dark] .global-preview,html[data-color-scheme=dark] .agent-panel,html[data-color-scheme=dark] .global-preview .file-preview,html[data-color-scheme=dark] .global-preview .fp-body,html[data-color-scheme=dark] .global-preview .ui-panel-header{background:rgba(10,10,17,{PA}) !important}
html[data-color-scheme=dark] .chat-header,html[data-color-scheme=dark] .topbar{background:rgba(10,10,17,{PA}) !important}
html[data-color-scheme=dark] .chat-dock:before{opacity:.45 !important}
@media (prefers-color-scheme:dark){
html[data-color-scheme=system]{--kimi-wallpaper-mask:rgba(7,7,13,{DA})}
html[data-color-scheme=system]{background-color:#0a0a10;background-image:linear-gradient(rgba(7,7,13,{DA}),rgba(7,7,13,{DA})),var(--kimi-wallpaper-dark) !important;background-size:cover,cover;background-position:center,center;background-repeat:no-repeat,no-repeat;background-attachment:fixed,fixed}
html[data-color-scheme=system] .app,html[data-color-scheme=system] .con,html[data-color-scheme=system] body,html[data-color-scheme=system] #app{background:transparent !important}
html[data-color-scheme=system] .side,html[data-color-scheme=system] .windows-titlebar{background:rgba(10,10,17,{SA}) !important}
html[data-color-scheme=system] .global-preview,html[data-color-scheme=system] .agent-panel,html[data-color-scheme=system] .global-preview .file-preview,html[data-color-scheme=system] .global-preview .fp-body,html[data-color-scheme=system] .global-preview .ui-panel-header{background:rgba(10,10,17,{PA}) !important}
html[data-color-scheme=system] .chat-header,html[data-color-scheme=system] .topbar{background:rgba(10,10,17,{PA}) !important}
html[data-color-scheme=system] .chat-dock:before{opacity:.45 !important}
}
"#);
    reveal_strlit(r#":root{--kimi-wallpaper-light:url("data:{MIME};base64,{B64}")}
html[data-color-scheme=light]{--kimi-wallpaper-mask:rgba(250,250,252,{LA})}
html[data-color-scheme=light]{background-color:#f5f5f7;background-image:linear-gradient(rgba(250,250,252,{LA}),rgba(250,250,252,{LA})),var(--kimi-wallpaper-light) !important;background-size:cover,cover;background-position:center,center;background-repeat:no-repeat,no-repeat;background-attachment:fixed,fixed}
html[data-color-scheme=light] .app,html[data-color-scheme=light] .con,html[data-color-scheme=light] body,html[data-color-scheme=light] #app{background:transparent !important}
html[data-color-scheme=light] .side,html[data-color-scheme=light] .windows-titlebar{background:rgba(255,255,255,{SA}) !important}
html[data-color-scheme=light] .global-preview,html[data-color-scheme=light] .agent-panel,html[data-color-scheme=light] .global-preview .file-preview,html[data-color-scheme=light] .global-preview .fp-body,html[data-color-scheme=light] .global-preview .ui-panel-header{background:rgba(255,255,255,{PA}) !important}
html[data-color-scheme=light] .chat-header,html[data-color-scheme=light] .topbar{background:rgba(255,255,255,{PA}) !important}
html[data-color-scheme=light] .chat-dock:before{opacity:.45 !important}
@media (prefers-color-scheme:light){
html[data-color-scheme=system]{--kimi-wallpaper-mask:rgba(250,250,252,{LA})}
html[data-color-scheme=system]{background-color:#f5f5f7;background-image:linear-gradient(rgba(250,250,252,{LA}),rgba(250,250,252,{LA})),var(--kimi-wallpaper-light) !important;background-size:cover,cover;background-position:center,center;background-repeat:no-repeat,no-repeat;background-attachment:fixed,fixed}
html[data-color-scheme=system] .app,html[data-color-scheme=system] .con,html[data-color-scheme=system] body,html[data-color-scheme=system] #app{background:transparent !important}
html[data-color-scheme=system] .side,html[data-color-scheme=system] .windows-titlebar{background:rgba(255,255,255,{SA}) !important}
html[data-color-scheme=system] .global-preview,html[data-color-scheme=system] .agent-panel,html[data-color-scheme=system] .global-preview .file-preview,html[data-color-scheme=system] .global-preview .fp-body,html[data-color-scheme=system] .global-preview .ui-panel-header{background:rgba(255,255,255,{PA}) !important}
html[data-color-scheme=system] .chat-header,html[data-color-scheme=system] .topbar{background:rgba(255,255,255,{PA}) !important}
html[data-color-scheme=system] .chat-dock:before{opacity:.45 !important}
}
"#);
    assert(DARK_TEMPLATE@.subrange(663, 723) =~= side_rule(false) + KEY_SA@ + rule_end());
    assert(DARK_TEMPLATE@.subrange(1100, 1150) =~= panel_rule(false) + KEY_PA@ + rule_end());
    assert(LIGHT_TEMPLATE@.subrange(688, 751) =~= side_rule(true) + KEY_SA@ + rule_end());
    assert(LIGHT_TEMPLATE@.subrange(1138, 1191) =~= panel_rule(true) + KEY_PA@ + rule_end());
    assert(DARK_TEMPLATE@.subrange(90, 135) =~= mask_rule(false) + KEY_DA@ + (mask_end() + "\nhtml"@));
    assert(LIGHT_TEMPLATE@.subrange(92, 142) =~= mask_rule(true) + KEY_LA@ + (mask_end() + "\nhtml"@));
}

/// A patch built from inputs without `*` is a block around rules without `*`.
pub proof fn lemma_build_patch_shape(
    dark: Option<(Seq<char>, Seq<char>, Seq<char>)>,
    light: Option<(Seq<char>, Seq<char>, Seq<char>)>,
    sa: Seq<char>,
    pa: Seq<char>,
)
    requires
        dark matches Some((b, a, m)) ==> lacks_char(b, '*') && lacks_char(a, '*') && lacks_char(m, '*'),
        light matches Some((b, a, m)) ==> lacks_char(b, '*') && lacks_char(a, '*') && lacks_char(m, '*'),
        lacks_char(sa, '*'),
        lacks_char(pa, '*'),
    ensures
        build_patch_spec(dark, light, sa, pa) matches Some(p) ==> exists|body: Seq<char>|
            lacks_char(body, '*') && p == patch_with_body(body),
{
    lemma_templates_lack_star();
    let d = match dark {
        Some((b, a, m)) => render_dark(b, a, sa, pa, m),
        None => Seq::empty(),
    };
    let l = match light {
        Some((b, a, m)) => render_light(b, a, sa, pa, m),
        None => Seq::empty(),
    };
    if let Some((b, a, m)) = dark {
        let s1 = replace_all(DARK_TEMPLATE@, KEY_B64@, b);
        lemma_replace_all_lacks(DARK_TEMPLATE@, KEY_B64@, b, '*');
        let s2 = replace_all(s1, KEY_DA@, a);
        lemma_replace_all_lacks(s1, KEY_DA@, a, '*');
        let s3 = replace_all(s2, KEY_SA@, sa);
        lemma_replace_all_lacks(s2, KEY_SA@, sa, '*');
        let s4 = replace_all(s3, KEY_PA@, pa);
        lemma_replace_all_lacks(s3, KEY_PA@, pa, '*');
        lemma_replace_all_lacks(s4, KEY_MIME@, m, '*');
    }
    if let Some((b, a, m)) = light {
        let s1 = replace_all(LIGHT_TEMPLATE@, KEY_B64@, b);
        lemma_replace_all_lacks(LIGHT_TEMPLATE@, KEY_B64@, b, '*');
        let s2 = replace_all(s1, KEY_LA@, a);
        lemma_replace_all_lacks(s1, KEY_LA@, a, '*');
        let s3 = replace_all(s2, KEY_SA@, sa);
        lemma_replace_all_lacks(s2, KEY_SA@, sa, '*');
        let s4 = replace_all(s3, KEY_PA@, pa);
        lemma_replace_all_lacks(s3, KEY_PA@, pa, '*');
        lemma_replace_all_lacks(s4, KEY_MIME@, m, '*');
    }
    assert(lacks_char(d + l, '*')) by {
        assert forall|i: int| 0 <= i < (d + l).len() implies (d + l)[i] != '*' by {
            if i < d.len() {
                assert((d + l)[i] == d[i]);
            } else {
                assert((d + l)[i] == l[i - d.len()]);
            }
        }
    }
}

/// No start marker in `t` followed by newlines.
proof fn lemma_no_start_with_newlines(t: Seq<char>, nl: Seq<char>, j: int)
    requires
        find_from(t, PATCH_START@, 0) is None,
        forall|i: int| 0 <= i < nl.len() ==> #[trigger] nl[i] == '\n',
        0 <= j,
    ensures
        !matches_at(t + nl, PATCH_START@, j),
{
    lemma_marks();
    lemma_find_from(t, PATCH_START@, 0);
    if matches_at(t + nl, PATCH_START@, j) {
        if j + 27 <= t.len() {
            lemma_matches_in_prefix(t, nl, PATCH_START@, j);
        } else {
            let k = if j <= t.len() {
                t.len() - j
            } else {
                0
            };
            lemma_match_char(t + nl, PATCH_START@, j, k);
            assert((t + nl)[j + k] == nl[j + k - t.len()]);
        }
    }
}

/// Stripping a sheet that ends in a patch block (after an empty line) removes
/// exactly that block, leaving its final newline.
proof fn lemma_strip_appended(t: Seq<char>, body: Seq<char>)
    requires
        find_from(t, PATCH_START@, 0) is None,
        lacks_char(body, '*'),
    ensures
        strip_patch_spec(t + seq!['\n', '\n'] + patch_with_body(body)) == t + seq!['\n', '\n', '\n'],
{
    lemma_marks();
    let nn = seq!['\n', '\n'];
    let x = t + nn + patch_with_body(body);
    let a: int = t.len() + 2int;
    let big_l: int = a + 35 + body.len();
    assert(x.len() == big_l + 39);
    assert forall|k: int| 0 <= k < 34 implies #[trigger] x[a + k] == PATCH_HEADER@[k] by {}
    assert(x[a + 34] == '\n');
    assert forall|k: int| 0 <= k < body.len() implies #[trigger] x[a + 35 + k] == body[k] by {}
    assert forall|k: int| 0 <= k < 39 implies #[trigger] x[big_l + k] == PATCH_END_LINE@[k] by {}
    assert forall|k: int| 0 <= k < t.len() implies #[trigger] x[k] == t[k] by {}
    assert(x[t.len() as int] == '\n');
    assert(x[t.len() + 1int] == '\n');
    // the first start marker is the patch header
    assert(x.subrange(a, a + 27) =~= PATCH_START@) by {
        assert forall|k: int| 0 <= k < 27 implies #[trigger] x.subrange(a, a + 27)[k] == PATCH_START@[k] by {
            assert(x[a + k] == PATCH_HEADER@[k]);
            assert(PATCH_HEADER@.subrange(0, 27)[k] == PATCH_HEADER@[k]);
        }
    }
    assert forall|j: int| 0 <= j < a implies !#[trigger] matches_at(x, PATCH_START@, j) by {
        lemma_no_start_with_newlines(t, nn, j);
        if j + 27 <= a {
            lemma_matches_in_prefix(t + nn, patch_with_body(body), PATCH_START@, j);
        } else {
            if matches_at(x, PATCH_START@, j) {
                let k = t.len() + 1 - j;
                lemma_match_char(x, PATCH_START@, j, k);
            }
        }
    }
    lemma_find_from_is(x, PATCH_START@, 0, a);
    // the first end marker after it closes the patch
    assert(x.subrange(big_l + 7, big_l + 38) =~= PATCH_END_MARK@) by {
        assert forall|k: int| 0 <= k < 31 implies #[trigger] x.subrange(big_l + 7, big_l + 38)[k]
            == PATCH_END_MARK@[k] by {
            assert(x[big_l + 7 + k] == PATCH_END_LINE@[7 + k]);
            assert(PATCH_END_LINE@.subrange(7, 38)[k] == PATCH_END_LINE@[7 + k]);
        }
    }
    assert forall|j: int| a <= j < big_l + 7 implies !#[trigger] matches_at(x, PATCH_END_MARK@, j) by {
        if matches_at(x, PATCH_END_MARK@, j) {
            lemma_match_char(x, PATCH_END_MARK@, j, 0);
            lemma_match_char(x, PATCH_END_MARK@, j, 29);
            lemma_match_char(x, PATCH_END_MARK@, j, 30);
            let p = j + 29;
            if p < a + 34 {
                assert(x[a + (p - a)] == PATCH_HEADER@[p - a]);
                assert(x[a + 3] == PATCH_HEADER@[3]);
            } else if p == a + 34 {
            } else if p < big_l {
                assert(x[a + 35 + (p - a - 35)] == body[p - a - 35]);
            } else {
                assert(x[big_l + (p - big_l)] == PATCH_END_LINE@[p - big_l]);
                assert(x[big_l + 2] == PATCH_END_LINE@[2]);
            }
        }
    }
    lemma_find_from_is(x, PATCH_END_MARK@, a, big_l + 7);
    let y = x.subrange(0, a) + x.subrange(big_l + 38, x.len() as int);
    let nnn = seq!['\n', '\n', '\n'];
    assert(y =~= t + nnn);
    assert forall|j: int| 0 <= j implies !#[trigger] matches_at(y, PATCH_START@, j) by {
        lemma_no_start_with_newlines(t, nnn, j);
    }
    lemma_find_from_none(y, PATCH_START@, 0);
    assert(strip_patch_spec(y) == y);
    assert(strip_patch_spec(x) == strip_patch_spec(y));
}

/// Stripping a sheet followed directly by a patch block removes exactly that
/// block, leaving its final newline.
proof fn lemma_strip_sheet_then_patch(c: Seq<char>, body: Seq<char>)
    requires
        find_from(c, PATCH_START@, 0) is None,
        lacks_char(body, '*'),
    ensures
        strip_patch_spec(c + patch_with_body(body)) == c.push('\n'),
{
    lemma_marks();
    reveal_strlit("/* === kimi-wallpaper-patch");
    assert(forall|k: int| 1 <= k < 27 ==> #[trigger] PATCH_START@[k] != '/');
    lemma_find_from(c, PATCH_START@, 0);
    let x = c + patch_with_body(body);
    let a: int = c.len() as int;
    let big_l: int = a + 35 + body.len();
    assert(x.len() == big_l + 39);
    assert forall|k: int| 0 <= k < 34 implies #[trigger] x[a + k] == PATCH_HEADER@[k] by {}
    assert(x[a + 34] == '\n');
    assert forall|k: int| 0 <= k < body.len() implies #[trigger] x[a + 35 + k] == body[k] by {}
    assert forall|k: int| 0 <= k < 39 implies #[trigger] x[big_l + k] == PATCH_END_LINE@[k] by {}
    assert(x.subrange(a, a + 27) =~= PATCH_START@) by {
        assert forall|k: int| 0 <= k < 27 implies #[trigger] x.subrange(a, a + 27)[k] == PATCH_START@[k] by {
            assert(x[a + k] == PATCH_HEADER@[k]);
            assert(PATCH_HEADER@.subrange(0, 27)[k] == PATCH_HEADER@[k]);
        }
    }
    assert forall|j: int| 0 <= j < a implies !#[trigger] matches_at(x, PATCH_START@, j) by {
        if matches_at(x, PATCH_START@, j) {
            if j + 27 <= a {
                lemma_matches_in_prefix(c, patch_with_body(body), PATCH_START@, j);
            } else {
                let k = a - j;
                lemma_match_char(x, PATCH_START@, j, k);
                assert(x[a] == PATCH_HEADER@[0]);
                assert(x[a + 0] == PATCH_HEADER@[0]);
                assert(PATCH_HEADER@[0] == PATCH_HEADER@.subrange(0, 27)[0]);
                assert(PATCH_START@[0] == '/');
                assert(1 <= k < 27);
                assert(PATCH_START@[k] != '/');
            }
        }
    }
    lemma_find_from_is(x, PATCH_START@, 0, a);
    assert(x.subrange(big_l + 7, big_l + 38) =~= PATCH_END_MARK@) by {
        assert forall|k: int| 0 <= k < 31 implies #[trigger] x.subrange(big_l + 7, big_l + 38)[k]
            == PATCH_END_MARK@[k] by {
            assert(x[big_l + 7 + k] == PATCH_END_LINE@[7 + k]);
            assert(PATCH_END_LINE@.subrange(7, 38)[k] == PATCH_END_LINE@[7 + k]);
        }
    }
    assert forall|j: int| a <= j < big_l + 7 implies !#[trigger] matches_at(x, PATCH_END_MARK@, j) by {
        if matches_at(x, PATCH_END_MARK@, j) {
            lemma_match_char(x, PATCH_END_MARK@, j, 0);
            lemma_match_char(x, PATCH_END_MARK@, j, 29);
            lemma_match_char(x, PATCH_END_MARK@, j, 30);
            let p = j + 29;
            if p < a + 34 {
                assert(x[a + (p - a)] == PATCH_HEADER@[p - a]);
                assert(x[a + 3] == PATCH_HEADER@[3]);
            } else if p == a + 34 {
            } else if p < big_l {
                assert(x[a + 35 + (p - a - 35)] == body[p - a - 35]);
            } else {
                assert(x[big_l + (p - big_l)] == PATCH_END_LINE@[p - big_l]);
                assert(x[big_l + 2] == PATCH_END_LINE@[2]);
            }
        }
    }
    lemma_find_from_is(x, PATCH_END_MARK@, a, big_l + 7);
    let y = x.subrange(0, a) + x.subrange(big_l + 38, x.len() as int);
    assert(y =~= c + seq!['\n']);
    assert forall|j: int| 0 <= j implies !#[trigger] matches_at(y, PATCH_START@, j) by {
        lemma_no_start_with_newlines(c, seq!['\n'], j);
    }
    lemma_find_from_none(y, PATCH_START@, 0);
    assert(strip_patch_spec(y) == y);
    assert(strip_patch_spec(x) == strip_patch_spec(y));
    assert(c.push('\n') =~= c + seq!['\n']);
}

// ---------------------------------------------------------------------------
// Laws
// ---------------------------------------------------------------------------

/// Stripping twice is stripping once.
pub proof fn law_strip_idempotent(css: Seq<char>)
    ensures
        strip_patch_spec(strip_patch_spec(css)) == strip_patch_spec(css),
    decreases css.len(),
{
    lemma_marks();
    if let Some(st) = find_from(css, PATCH_START@, 0) {
        if let Some(e) = find_from(css, PATCH_END_MARK@, st) {
            lemma_find_from(css, PATCH_START@, 0);
            lemma_find_from(css, PATCH_END_MARK@, st);
            law_strip_idempotent(
                css.subrange(0, st) + css.subrange(e + PATCH_END_MARK@.len(), css.len() as int),
            );
        }
    }
}

/// Applying a patch to a sheet that has no leftover start marker, and then
/// applying it again, gives the same sheet as applying it once.
pub proof fn law_apply_idempotent(content: Seq<char>, body: Seq<char>)
    requires
        find_from(strip_patch_spec(content), PATCH_START@, 0) is None,
        lacks_char(body, '*'),
    ensures
        patched_css_spec(patched_css_spec(content, Some(patch_with_body(body))), Some(
            patch_with_body(body),
        )) == patched_css_spec(content, Some(patch_with_body(body))),
{
    lemma_marks();
    let p = patch_with_body(body);
    let s = strip_patch_spec(content);
    let t = trim_end(s);
    lemma_trim_end(s);
    crate::text::lemma_contains_prefix(s, t.len() as int, PATCH_START@);
    let x = t + seq!['\n', '\n'] + p;
    assert(x.last() == '\n');
    assert(patched_css_spec(content, Some(p)) == x);
    lemma_strip_appended(t, body);
    let nnn = seq!['\n', '\n', '\n'];
    lemma_trim_end_append_space(t, nnn);
    crate::text::lemma_trim_end_idempotent(s);
}

/// Applying a patch to a sheet without patch markers and then removing it
/// gives the sheet back, up to trailing white space: exactly back when the sheet
/// ends in one newline after its last other character.
pub proof fn law_remove_undoes_apply(content: Seq<char>, body: Seq<char>)
    requires
        find_from(content, PATCH_START@, 0) is None,
        lacks_char(body, '*'),
    ensures
        patched_css_spec(patched_css_spec(content, Some(patch_with_body(body))), None) == trim_end(
            content,
        ).push('\n'),
        content == trim_end(content).push('\n') ==> patched_css_spec(
            patched_css_spec(content, Some(patch_with_body(body))),
            None,
        ) == content,
{
    lemma_marks();
    assert(strip_patch_spec(content) == content);
    law_apply_idempotent(content, body);
    let t = trim_end(content);
    let p = patch_with_body(body);
    let x = t + seq!['\n', '\n'] + p;
    assert(x.last() == '\n');
    lemma_trim_end(content);
    crate::text::lemma_contains_prefix(content, t.len() as int, PATCH_START@);
    lemma_strip_appended(t, body);
    let nnn = seq!['\n', '\n', '\n'];
    lemma_trim_end_append_space(t, nnn);
    crate::text::lemma_trim_end_idempotent(content);
}

/// Applying a patch that `build_patch` made (from base64 data, opacities and
/// MIME types, none of which holds `*`) a second time leaves the style sheet as
/// the first time left it: no second block is added. This holds for sheets
/// without a leftover, unterminated patch start.
pub proof fn law_reapply_built_patch(
    content: Seq<char>,
    dark: Option<(Seq<char>, Seq<char>, Seq<char>)>,
    light: Option<(Seq<char>, Seq<char>, Seq<char>)>,
    sa: Seq<char>,
    pa: Seq<char>,
)
    requires
        find_from(strip_patch_spec(content), PATCH_START@, 0) is None,
        dark matches Some((b, a, m)) ==> lacks_char(b, '*') && lacks_char(a, '*') && lacks_char(m, '*'),
        light matches Some((b, a, m)) ==> lacks_char(b, '*') && lacks_char(a, '*') && lacks_char(m, '*'),
        lacks_char(sa, '*'),
        lacks_char(pa, '*'),
        build_patch_spec(dark, light, sa, pa) is Some,
    ensures
        ({
            let p = build_patch_spec(dark, light, sa, pa)->0;
            patched_css_spec(patched_css_spec(content, Some(p)), Some(p)) == patched_css_spec(content, Some(p))
        }),
{
    lemma_build_patch_shape(dark, light, sa, pa);
    let p = build_patch_spec(dark, light, sa, pa)->0;
    let body = choose|body: Seq<char>| lacks_char(body, '*') && p == patch_with_body(body);
    law_apply_idempotent(content, body);
}

/// A sheet without a patch start, followed by a patch that `build_patch` made
/// (from inputs without `*`), strips back to the sheet and one newline.
pub proof fn law_strip_built_patch(
    c: Seq<char>,
    dark: Option<(Seq<char>, Seq<char>, Seq<char>)>,
    light: Option<(Seq<char>, Seq<char>, Seq<char>)>,
    sa: Seq<char>,
    pa: Seq<char>,
)
    requires
        find_from(c, PATCH_START@, 0) is None,
        dark matches Some((b, a, m)) ==> lacks_char(b, '*') && lacks_char(a, '*') && lacks_char(m, '*'),
        light matches Some((b, a, m)) ==> lacks_char(b, '*') && lacks_char(a, '*') && lacks_char(m, '*'),
        lacks_char(sa, '*'),
        lacks_char(pa, '*'),
        build_patch_spec(dark, light, sa, pa) is Some,
    ensures
        strip_patch_spec(c + build_patch_spec(dark, light, sa, pa)->0) == c.push('\n'),
{
    lemma_build_patch_shape(dark, light, sa, pa);
    let p = build_patch_spec(dark, light, sa, pa)->0;
    let body = choose|body: Seq<char>| lacks_char(body, '*') && p == patch_with_body(body);
    lemma_strip_sheet_then_patch(c, body);
}

// ---------------------------------------------------------------------------
// Where the opacities land
// ---------------------------------------------------------------------------

/// The start of the side bar and title bar rule of the dark (`false`) or light
/// (`true`) rules, up to its opacity.
pub open spec fn side_rule(light: bool) -> Seq<char> {
    if light {
        ".windows-titlebar{background:rgba(255,255,255,"@
    } else {
        ".windows-titlebar{background:rgba(10,10,17,"@
    }
}

/// The start of the top bar (panel) rule of the dark or light rules, up to its
/// opacity.
pub open spec fn panel_rule(light: bool) -> Seq<char> {
    if light {
        ".topbar{background:rgba(255,255,255,"@
    } else {
        ".topbar{background:rgba(10,10,17,"@
    }
}

/// What follows the opacity in those rules.
pub open spec fn rule_end() -> Seq<char> {
    ") !important}"@
}

/// The start of the mask rule of the dark or light rules, up to the mask
/// opacity.
pub open spec fn mask_rule(light: bool) -> Seq<char> {
    if light {
        "--kimi-wallpaper-mask:rgba(250,250,252,"@
    } else {
        "--kimi-wallpaper-mask:rgba(7,7,13,"@
    }
}

/// What follows the opacity in the mask rule.
pub open spec fn mask_end() -> Seq<char> {
    ")}"@
}

/// A placeholder: `{`, a name that starts with a capital letter, `}`.
pub open spec fn placeholder(k: Seq<char>) -> bool {
    &&& 4 <= k.len() <= 6
    &&& k[0] == '{'
    &&& k[k.len() - 1] == '}'
    &&& 'A' <= k[1] <= 'Z'
    &&& forall|i: int| 1 <= i < k.len() ==> k[i] != '{'
}

/// The text of a rule before its placeholder: no `}`, and every `{` in it opens
/// a declaration block (followed by something other than a capital letter).
pub open spec fn rule_head(w: Seq<char>) -> bool {
    &&& w.len() >= 6
    &&& lacks_char(w, '}')
    &&& forall|i: int|
        0 <= i < w.len() && #[trigger] w[i] == '{' ==> i + 1 < w.len() && !('A' <= w[i + 1] <= 'Z')
}

/// A piece of text that replacing `k` leaves alone, and that no occurrence of
/// `k` can straddle into or out of.
pub open spec fn segment_ok(m: Seq<char>, k: Seq<char>) -> bool {
    &&& m.len() >= k.len()
    &&& forall|i: int| 0 <= i < k.len() - 1 ==> m[i] != '}'
    &&& forall|i: int| m.len() - k.len() < i < m.len() ==> m[i] != '{'
    &&& forall|i: int| 0 <= i < m.len() && #[trigger] m[i] == '{' ==> i + 1 < m.len() && m[i + 1] != k[1]
}

/// The placeholders, the rule texts and the places of the rules in the
/// templates.
proof fn lemma_rule_facts()
    ensures
        placeholder(KEY_B64@),
        placeholder(KEY_DA@),
        placeholder(KEY_LA@),
        placeholder(KEY_SA@),
        placeholder(KEY_PA@),
        placeholder(KEY_MIME@),
        KEY_B64@[1] == 'B',
        KEY_DA@[1] == 'D',
        KEY_LA@[1] == 'L',
        KEY_SA@[1] == 'S',
        KEY_PA@[1] == 'P',
        KEY_MIME@[1] == 'M',
        rule_head(side_rule(false)),
        rule_head(side_rule(true)),
        rule_head(panel_rule(false)),
        rule_head(panel_rule(true)),
        rule_end().len() == 13,
        lacks_char(rule_end(), '{'),
        side_rule(false).len() == 43,
        side_rule(true).len() == 46,
        panel_rule(false).len() == 33,
        panel_rule(true).len() == 36,
        KEY_SA@.len() == 4,
        KEY_PA@.len() == 4,
        KEY_DA@.len() == 4,
        KEY_LA@.len() == 4,
        rule_head(mask_rule(false)),
        rule_head(mask_rule(true)),
        mask_rule(false).len() == 34,
        mask_rule(true).len() == 39,
        (mask_end() + "\nhtml"@).len() == 7,
        lacks_char(mask_end() + "\nhtml"@, '{'),
{
    reveal_strlit("{B64}");
    reveal_strlit("{DA}");
    reveal_strlit("{LA}");
    reveal_strlit("{SA}");
    reveal_strlit("{PA}");
    reveal_strlit("{MIME}");
    reveal_strlit(".windows-titlebar{background:rgba(255,255,255,");
    reveal_strlit(".windows-titlebar{background:rgba(10,10,17,");
    reveal_strlit(".topbar{background:rgba(255,255,255,");
    reveal_strlit(".topbar{background:rgba(10,10,17,");
    reveal_strlit(") !important}");
    reveal_strlit("--kimi-wallpaper-mask:rgba(250,250,252,");
    reveal_strlit("--kimi-wallpaper-mask:rgba(7,7,13,");
    reveal_strlit(")}");
    reveal_strlit("\nhtml");
}

/// The rule texts before their placeholders do not contain the placeholders.
proof fn lemma_segment_before(w: Seq<char>, big: Seq<char>, e: Seq<char>, k: Seq<char>)
    requires
        placeholder(big),
        placeholder(k),
        rule_head(w),
        e.len() >= 6,
        lacks_char(e, '{'),
        k[1] != big[1],
    ensures
        segment_ok(w + big + e, k),
{
    let m = w + big + e;
    assert forall|i: int| 0 <= i < m.len() && #[trigger] m[i] == '{' implies i + 1 < m.len() && m[i + 1] != k[1] by {
        if i < w.len() {
            if i + 1 < w.len() {
                assert(m[i + 1] == w[i + 1]);
            }
        } else if i < w.len() + big.len() {
            assert(m[i] == big[i - w.len()]);
            assert(i == w.len());
            assert(m[i + 1] == big[1]);
        } else {
            assert(m[i] == e[i - w.len() - big.len()]);
        }
    }
    assert forall|i: int| 0 <= i < k.len() - 1 implies #[trigger] m[i] != '}' by {
        assert(m[i] == w[i]);
    }
    assert forall|i: int| m.len() - k.len() < i < m.len() implies #[trigger] m[i] != '{' by {
        assert(m[i] == e[i - w.len() - big.len()]);
    }
}

/// A rule with its opacity filled in is left alone by any placeholder.
proof fn lemma_segment_after(w: Seq<char>, v: Seq<char>, e: Seq<char>, k: Seq<char>)
    requires
        placeholder(k),
        rule_head(w),
        lacks_char(v, '{'),
        e.len() >= 6,
        lacks_char(e, '{'),
    ensures
        segment_ok(w + v + e, k),
{
    let m = w + v + e;
    assert forall|i: int| 0 <= i < m.len() && #[trigger] m[i] == '{' implies i + 1 < m.len() && m[i + 1] != k[1] by {
        if i < w.len() {
            assert(m[i] == w[i]);
            if i + 1 < w.len() {
                assert(m[i + 1] == w[i + 1]);
            }
        } else if i < w.len() + v.len() {
            assert(m[i] == v[i - w.len()]);
        } else {
            assert(m[i] == e[i - w.len() - v.len()]);
        }
    }
    assert forall|i: int| 0 <= i < k.len() - 1 implies #[trigger] m[i] != '}' by {
        assert(m[i] == w[i]);
    }
    assert forall|i: int| m.len() - k.len() < i < m.len() implies #[trigger] m[i] != '{' by {
        assert(m[i] == e[i - w.len() - v.len()]);
    }
}

/// Replacing `k` in text around a segment that it leaves alone.
proof fn lemma_keep(p: Seq<char>, m: Seq<char>, q: Seq<char>, k: Seq<char>, v: Seq<char>)
    requires
        placeholder(k),
        segment_ok(m, k),
    ensures
        replace_all(p + m + q, k, v) == replace_all(p, k, v) + m + replace_all(q, k, v),
{
    let n = k.len() as int;
    assert forall|i: int| 0 <= i implies !#[trigger] matches_at(m, k, i) by {
        if matches_at(m, k, i) {
            lemma_match_char(m, k, i, 0);
            lemma_match_char(m, k, i, 1);
        }
    }
    lemma_replace_all_absent(m, k, v);
    assert forall|i: int| 0 <= i < m.len() && i + n > m.len() implies !#[trigger] matches_at(m + q, k, i) by {
        if matches_at(m + q, k, i) {
            lemma_match_char(m + q, k, i, 0);
            assert((m + q)[i] == m[i]);
        }
    }
    lemma_replace_all_concat(m, q, k, v);
    assert(p + m + q =~= p + (m + q));
    assert forall|i: int| 0 <= i < p.len() && i + n > p.len() implies !#[trigger] matches_at(p + (m + q), k, i) by {
        if matches_at(p + (m + q), k, i) {
            lemma_match_char(p + (m + q), k, i, n - 1);
            assert((p + (m + q))[i + n - 1] == m[i + n - 1 - p.len()]);
        }
    }
    lemma_replace_all_concat(p, m + q, k, v);
    assert(replace_all(p, k, v) + (m + replace_all(q, k, v)) =~= replace_all(p, k, v) + m + replace_all(q, k, v));
}

/// Replacing `big` in text around the segment `w + big + e` puts `v` in its place.
proof fn lemma_fill(p: Seq<char>, w: Seq<char>, big: Seq<char>, e: Seq<char>, q: Seq<char>, v: Seq<char>)
    requires
        placeholder(big),
        rule_head(w),
        e.len() >= 6,
        lacks_char(e, '{'),
    ensures
        replace_all(p + (w + big + e) + q, big, v) == replace_all(p, big, v) + (w + v + e) + replace_all(q, big, v),
{
    let n = big.len() as int;
    let m = w + big + e;
    // Inside the segment: the placeholder is the only occurrence.
    assert forall|i: int| 0 <= i implies !#[trigger] matches_at(w, big, i) by {
        if matches_at(w, big, i) {
            lemma_match_char(w, big, i, 0);
            lemma_match_char(w, big, i, 1);
        }
    }
    lemma_replace_all_absent(w, big, v);
    assert forall|i: int| 0 <= i implies !#[trigger] matches_at(e, big, i) by {
        if matches_at(e, big, i) {
            lemma_match_char(e, big, i, 0);
        }
    }
    lemma_replace_all_absent(e, big, v);
    assert(matches_at(big + e, big, 0)) by {
        assert((big + e).subrange(0, n) =~= big);
    }
    lemma_find_from_is(big + e, big, 0, 0);
    assert((big + e).subrange(n, (big + e).len() as int) =~= e);
    assert(replace_all(big + e, big, v) =~= v + e);
    assert forall|i: int| 0 <= i < w.len() && i + n > w.len() implies !#[trigger] matches_at(w + (big + e), big, i) by {
        if matches_at(w + (big + e), big, i) {
            lemma_match_char(w + (big + e), big, i, 0);
            lemma_match_char(w + (big + e), big, i, 1);
            assert((w + (big + e))[i] == w[i]);
            if i + 1 < w.len() {
                assert((w + (big + e))[i + 1] == w[i + 1]);
            }
        }
    }
    lemma_replace_all_concat(w, big + e, big, v);
    assert(w + (big + e) =~= m);
    assert(replace_all(m, big, v) =~= w + v + e);
    // Around the segment: no occurrence straddles its ends.
    assert forall|i: int| 0 <= i < m.len() && i + n > m.len() implies !#[trigger] matches_at(m + q, big, i) by {
        if matches_at(m + q, big, i) {
            lemma_match_char(m + q, big, i, 0);
            assert((m + q)[i] == m[i]);
            assert(m[i] == e[i - w.len() - n]);
        }
    }
    lemma_replace_all_concat(m, q, big, v);
    assert(p + m + q =~= p + (m + q));
    assert forall|i: int| 0 <= i < p.len() && i + n > p.len() implies !#[trigger] matches_at(p + (m + q), big, i) by {
        if matches_at(p + (m + q), big, i) {
            lemma_match_char(p + (m + q), big, i, n - 1);
            assert((p + (m + q))[i + n - 1] == m[i + n - 1 - p.len()]);
            assert(m[i + n - 1 - p.len()] == w[i + n - 1 - p.len()]);
        }
    }
    lemma_replace_all_concat(p, m + q, big, v);
    assert(replace_all(p, big, v) + (w + v + e + replace_all(q, big, v)) =~= replace_all(p, big, v) + (w + v
        + e) + replace_all(q, big, v));
}

/// Text found in `x` is found in `a + x + b`.
proof fn lemma_contains_within(a: Seq<char>, x: Seq<char>, b: Seq<char>, pat: Seq<char>)
    requires
        contains(x, pat),
    ensures
        contains(a + x + b, pat),
{
    lemma_find_from(x, pat, 0);
    let i = find_from(x, pat, 0)->Some_0;
    lemma_matches_in_prefix(x, b, pat, i);
    lemma_matches_in_suffix(a, x + b, pat, i);
    assert(a + x + b =~= a + (x + b));
    lemma_find_from_some(a + x + b, pat, 0, a.len() + i);
}

/// Text whose extension is found is found.
proof fn lemma_contains_start(s: Seq<char>, x: Seq<char>, y: Seq<char>)
    requires
        contains(s, x + y),
    ensures
        contains(s, x),
{
    lemma_find_from(s, x + y, 0);
    let i = find_from(s, x + y, 0)->Some_0;
    assert(s.subrange(i, i + x.len()) =~= (x + y).subrange(0, x.len() as int));
    assert((x + y).subrange(0, x.len() as int) =~= x);
    assert(matches_at(s, x, i));
    lemma_find_from_some(s, x, 0, i);
}

/// The template's placeholders filled in turn (image data, mask opacity, side
/// bar opacity, panel opacity, MIME type).
pub open spec fn filled(
    t: Seq<char>,
    ak: Seq<char>,
    b: Seq<char>,
    a: Seq<char>,
    sa: Seq<char>,
    pa: Seq<char>,
    m: Seq<char>,
) -> Seq<char> {
    replace_all(
        replace_all(replace_all(replace_all(replace_all(t, KEY_B64@, b), ak, a), KEY_SA@, sa), KEY_PA@, pa),
        KEY_MIME@,
        m,
    )
}

/// A rule `w + big + e` of the template, `big` being the mask, side bar or
/// panel placeholder, comes out of the filling with that placeholder's value in
/// its place.
proof fn lemma_rule_survives(
    t: Seq<char>,
    at: int,
    w: Seq<char>,
    big: Seq<char>,
    e: Seq<char>,
    ak: Seq<char>,
    b: Seq<char>,
    a: Seq<char>,
    sa: Seq<char>,
    pa: Seq<char>,
    m: Seq<char>,
)
    requires
        0 <= at,
        at + w.len() + big.len() + e.len() <= t.len(),
        t.subrange(at, at + w.len() + big.len() + e.len()) == w + big + e,
        big == ak || big == KEY_SA@ || big == KEY_PA@,
        ak == KEY_DA@ || ak == KEY_LA@,
        rule_head(w),
        e.len() >= 6,
        lacks_char(e, '{'),
        lacks_char(if big == ak { a } else if big == KEY_SA@ { sa } else { pa }, '{'),
    ensures
        contains(
            filled(t, ak, b, a, sa, pa, m),
            w + (if big == ak { a } else if big == KEY_SA@ { sa } else { pa }) + e,
        ),
{
    lemma_rule_facts();
    let seg = w + big + e;
    let end = at + seg.len();
    let p0 = t.subrange(0, at);
    let q0 = t.subrange(end, t.len() as int);
    assert(t =~= p0 + seg + q0);
    let v = if big == ak { a } else if big == KEY_SA@ { sa } else { pa };
    let seg2 = w + v + e;
    lemma_segment_before(w, big, e, KEY_B64@);
    lemma_keep(p0, seg, q0, KEY_B64@, b);
    let p1 = replace_all(p0, KEY_B64@, b);
    let q1 = replace_all(q0, KEY_B64@, b);
    let p2 = replace_all(p1, ak, a);
    let q2 = replace_all(q1, ak, a);
    let p3 = replace_all(p2, KEY_SA@, sa);
    let q3 = replace_all(q2, KEY_SA@, sa);
    let p4 = replace_all(p3, KEY_PA@, pa);
    let q4 = replace_all(q3, KEY_PA@, pa);
    if big == ak {
        lemma_fill(p1, w, big, e, q1, a);
        lemma_segment_after(w, v, e, KEY_SA@);
        lemma_keep(p2, seg2, q2, KEY_SA@, sa);
        lemma_segment_after(w, v, e, KEY_PA@);
        lemma_keep(p3, seg2, q3, KEY_PA@, pa);
    } else if big == KEY_SA@ {
        lemma_segment_before(w, big, e, ak);
        lemma_keep(p1, seg, q1, ak, a);
        lemma_fill(p2, w, big, e, q2, sa);
        lemma_segment_after(w, v, e, KEY_PA@);
        lemma_keep(p3, seg2, q3, KEY_PA@, pa);
    } else {
        lemma_segment_before(w, big, e, ak);
        lemma_keep(p1, seg, q1, ak, a);
        lemma_segment_before(w, big, e, KEY_SA@);
        lemma_keep(p2, seg, q2, KEY_SA@, sa);
        lemma_fill(p3, w, big, e, q3, pa);
    }
    lemma_segment_after(w, v, e, KEY_MIME@);
    lemma_keep(p4, seg2, q4, KEY_MIME@, m);
    let p5 = replace_all(p4, KEY_MIME@, m);
    let q5 = replace_all(q4, KEY_MIME@, m);
    assert(filled(t, ak, b, a, sa, pa, m) == p5 + seg2 + q5);
    assert(matches_at(seg2, seg2, 0)) by {
        assert(seg2.subrange(0, seg2.len() as int) =~= seg2);
    }
    lemma_find_from_some(seg2, seg2, 0, 0);
    lemma_contains_within(p5, seg2, q5, seg2);
}

/// In a built patch, each color scheme that has a wallpaper gets its own mask
/// opacity in its mask rule, the side bar opacity in its side bar and title bar
/// rule, and the panel opacity in its top bar (panel) rule: `{DA}`/`{LA}` is
/// filled with the slot's opacity, `{SA}` with `side_alpha`, `{PA}` with
/// `panel_alpha`. This holds whenever the opacities hold no `{` (opacity text
/// never does; one holding a placeholder would itself be filled in later).
pub proof fn law_build_patch_opacities(
    dark: Option<(Seq<char>, Seq<char>, Seq<char>)>,
    light: Option<(Seq<char>, Seq<char>, Seq<char>)>,
    side_alpha: Seq<char>,
    panel_alpha: Seq<char>,
)
    requires
        dark is Some || light is Some,
        lacks_char(side_alpha, '{'),
        lacks_char(panel_alpha, '{'),
        dark matches Some((_, a, _)) ==> lacks_char(a, '{'),
        light matches Some((_, a, _)) ==> lacks_char(a, '{'),
    ensures
        build_patch_spec(dark, light, side_alpha, panel_alpha) is Some,
        dark matches Some((_, a, _)) ==> contains(
            build_patch_spec(dark, light, side_alpha, panel_alpha)->0,
            mask_rule(false) + a + mask_end(),
        ),
        light matches Some((_, a, _)) ==> contains(
            build_patch_spec(dark, light, side_alpha, panel_alpha)->0,
            mask_rule(true) + a + mask_end(),
        ),
        dark is Some ==> contains(
            build_patch_spec(dark, light, side_alpha, panel_alpha)->0,
            side_rule(false) + side_alpha + rule_end(),
        ),
        dark is Some ==> contains(
            build_patch_spec(dark, light, side_alpha, panel_alpha)->0,
            panel_rule(false) + panel_alpha + rule_end(),
        ),
        light is Some ==> contains(
            build_patch_spec(dark, light, side_alpha, panel_alpha)->0,
            side_rule(true) + side_alpha + rule_end(),
        ),
        light is Some ==> contains(
            build_patch_spec(dark, light, side_alpha, panel_alpha)->0,
            panel_rule(true) + panel_alpha + rule_end(),
        ),
{
    lemma_rule_facts();
    lemma_templates_lack_star();
    let d = match dark {
        Some((b, a, m)) => render_dark(b, a, side_alpha, panel_alpha, m),
        None => Seq::empty(),
    };
    let l = match light {
        Some((b, a, m)) => render_light(b, a, side_alpha, panel_alpha, m),
        None => Seq::empty(),
    };
    let p = build_patch_spec(dark, light, side_alpha, panel_alpha)->0;
    let head = PATCH_HEADER@ + seq!['\n'];
    assert(p =~= head + d + (l + PATCH_END_LINE@));
    assert(p =~= (head + d) + l + PATCH_END_LINE@);
    if let Some((b, a, m)) = dark {
        assert(d == filled(DARK_TEMPLATE@, KEY_DA@, b, a, side_alpha, panel_alpha, m));
        lemma_rule_survives(DARK_TEMPLATE@, 663, side_rule(false), KEY_SA@, rule_end(), KEY_DA@, b, a, side_alpha, panel_alpha, m);
        lemma_rule_survives(DARK_TEMPLATE@, 1100, panel_rule(false), KEY_PA@, rule_end(), KEY_DA@, b, a, side_alpha, panel_alpha, m);
        lemma_contains_within(head, d, l + PATCH_END_LINE@, side_rule(false) + side_alpha + rule_end());
        lemma_contains_within(head, d, l + PATCH_END_LINE@, panel_rule(false) + panel_alpha + rule_end());
        lemma_rule_survives(DARK_TEMPLATE@, 90, mask_rule(false), KEY_DA@, mask_end() + "\nhtml"@, KEY_DA@, b, a, side_alpha, panel_alpha, m);
        lemma_contains_within(head, d, l + PATCH_END_LINE@, mask_rule(false) + a + (mask_end() + "\nhtml"@));
        assert(mask_rule(false) + a + (mask_end() + "\nhtml"@) =~= (mask_rule(false) + a + mask_end()) + "\nhtml"@);
        lemma_contains_start(p, mask_rule(false) + a + mask_end(), "\nhtml"@);
    }
    if let Some((b, a, m)) = light {
        assert(l == filled(LIGHT_TEMPLATE@, KEY_LA@, b, a, side_alpha, panel_alpha, m));
        lemma_rule_survives(LIGHT_TEMPLATE@, 688, side_rule(true), KEY_SA@, rule_end(), KEY_LA@, b, a, side_alpha, panel_alpha, m);
        lemma_rule_survives(LIGHT_TEMPLATE@, 1138, panel_rule(true), KEY_PA@, rule_end(), KEY_LA@, b, a, side_alpha, panel_alpha, m);
        lemma_contains_within(head + d, l, PATCH_END_LINE@, side_rule(true) + side_alpha + rule_end());
        lemma_contains_within(head + d, l, PATCH_END_LINE@, panel_rule(true) + panel_alpha + rule_end());
        lemma_rule_survives(LIGHT_TEMPLATE@, 92, mask_rule(true), KEY_LA@, mask_end() + "\nhtml"@, KEY_LA@, b, a, side_alpha, panel_alpha, m);
        lemma_contains_within(head + d, l, PATCH_END_LINE@, mask_rule(true) + a + (mask_end() + "\nhtml"@));
        assert(mask_rule(true) + a + (mask_end() + "\nhtml"@) =~= (mask_rule(true) + a + mask_end()) + "\nhtml"@);
        lemma_contains_start(p, mask_rule(true) + a + mask_end(), "\nhtml"@);
    }
}

// ---------------------------------------------------------------------------
// Executable functions
// ---------------------------------------------------------------------------

/// Removes every patch block from a style sheet.
pub fn strip_patch(css: &str) -> (r: String)
    ensures
        r@ == strip_patch_spec(css@),
{
    let start_m = chars_of(PATCH_START);
    let end_m = chars_of(PATCH_END_MARK);
    let mut cur = chars_of(css);
    proof {
        lemma_marks();
    }
    loop
        invariant
            start_m@ == PATCH_START@,
            end_m@ == PATCH_END_MARK@,
            end_m@.len() == 31,
            strip_patch_spec(css@) == strip_patch_spec(cur@),
        ensures
            strip_patch_spec(css@) == cur@,
        decreases cur@.len(),
    {
        let n = cur.len();
        let start = match find_exec(&cur, &start_m, 0) {
            None => {
                assert(strip_patch_spec(cur@) == cur@);
                break;
            },
            Some(s) => s,
        };
        proof {
            lemma_find_from(cur@, PATCH_START@, 0);
        }
        let e = match find_exec(&cur, &end_m, start) {
            None => {
                assert(strip_patch_spec(cur@) == cur@);
                break;
            },
            Some(e) => e,
        };
        proof {
            lemma_find_from(cur@, PATCH_END_MARK@, start as int);
        }
        let end = e + end_m.len();
        let mut next = slice_chars(&cur, 0, start);
        push_chars(&mut next, &cur, end, n);
        cur = next;
    }
    string_of(&cur)
}

/// Fills a template's placeholders in the order the templates expect.
fn render(
    template: &str,
    alpha_key: &str,
    b64: &str,
    alpha: &str,
    side_alpha: &str,
    panel_alpha: &str,
    mime: &str,
) -> (r: Vec<char>)
    requires
        KEY_B64@.len() > 0,
        alpha_key@.len() > 0,
    ensures
        r@ == replace_all(
            replace_all(
                replace_all(
                    replace_all(replace_all(template@, KEY_B64@, b64@), alpha_key@, alpha@),
                    KEY_SA@,
                    side_alpha@,
                ),
                KEY_PA@,
                panel_alpha@,
            ),
            KEY_MIME@,
            mime@,
        ),
{
    proof {
        lemma_marks();
    }
    let t = chars_of(template);
    let s1 = replace_all_exec(&t, &chars_of(KEY_B64), &chars_of(b64));
    let s2 = replace_all_exec(&s1, &chars_of(alpha_key), &chars_of(alpha));
    let s3 = replace_all_exec(&s2, &chars_of(KEY_SA), &chars_of(side_alpha));
    let s4 = replace_all_exec(&s3, &chars_of(KEY_PA), &chars_of(panel_alpha));
    replace_all_exec(&s4, &chars_of(KEY_MIME), &chars_of(mime))
}

/// Builds the patch block for the dark and light slots; `None` when both are
/// empty. Each slot gives its base64 image data, its mask opacity as text and
/// its MIME type; the two opacities given last are shared by both slots.
pub fn build_patch(
    dark: Option<(&str, &str, &str)>,
    light: Option<(&str, &str, &str)>,
    side_alpha: &str,
    panel_alpha: &str,
) -> (r: Option<String>)
    ensures
        match r {
            Some(s) => build_patch_spec(
                slot_opt(dark),
                slot_opt(light),
                side_alpha@,
                panel_alpha@,
            ) == Some(s@),
            None => build_patch_spec(
                slot_opt(dark),
                slot_opt(light),
                side_alpha@,
                panel_alpha@,
            ) is None,
        },
{
    proof {
        lemma_marks();
    }
    if dark.is_none() && light.is_none() {
        return None;
    }
    let mut out = chars_of(PATCH_HEADER);
    out.push('\n');
    let ghost head = out@;
    match dark {
        Some((b64, da, mime)) => {
            let d = render(DARK_TEMPLATE, KEY_DA, b64, da, side_alpha, panel_alpha, mime);
            push_all(&mut out, &d);
        },
        None => {},
    }
    let ghost mid = out@;
    match light {
        Some((b64, la, mime)) => {
            let l = render(LIGHT_TEMPLATE, KEY_LA, b64, la, side_alpha, panel_alpha, mime);
            push_all(&mut out, &l);
        },
        None => {},
    }
    let ghost after = out@;
    let tail = chars_of(PATCH_END_LINE);
    push_all(&mut out, &tail);
    proof {
        let d = match slot_opt(dark) {
            Some((b, a, m)) => render_dark(b, a, side_alpha@, panel_alpha@, m),
            None => Seq::empty(),
        };
        let l = match slot_opt(light) {
            Some((b, a, m)) => render_light(b, a, side_alpha@, panel_alpha@, m),
            None => Seq::empty(),
        };
        assert(mid =~= head + d);
        assert(after =~= head + d + l);
        assert(out@ =~= patch_with_body(d + l));
    }
    Some(string_of(&out))
}

/// Whether a style sheet holds a patch block (its start mark).
pub fn css_is_patched(css: &str) -> (r: bool)
    ensures
        r == contains(css@, PATCH_START@),
{
    let c = chars_of(css);
    let m = chars_of(PATCH_START);
    contains_exec(&c, &m)
}

/// The style sheet content to write when applying `patch` (or, with `None`,
/// removing the patch): earlier blocks stripped, trailing white space trimmed,
/// the block after an empty line, and a final newline.
pub fn patched_css(content: &str, patch: Option<&str>) -> (r: String)
    ensures
        r@ == patched_css_spec(content@, text_opt(patch)),
{
    let stripped = strip_patch(content);
    let s = chars_of(stripped.as_str());
    let n = trim_end_len(&s);
    proof {
        lemma_trim_end(s@);
    }
    let mut out = slice_chars(&s, 0, n);
    match patch {
        Some(p) => {
            out.push('\n');
            out.push('\n');
            let pc = chars_of(p);
            push_all(&mut out, &pc);
            if out[out.len() - 1] != '\n' {
                out.push('\n');
            }
        },
        None => {
            out.push('\n');
        },
    }
    string_of(&out)
}

} // verus!
