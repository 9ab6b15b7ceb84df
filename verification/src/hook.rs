//! The hot-reload hook: a marked `<script>` block placed before the last
//! `</body>` of the app's `index.html`, which polls a version file and swaps the
//! wallpaper style sheet in place. Installing is idempotent, an older block is
//! upgraded, and removing gives back the page as it was.
use vstd::prelude::*;
use crate::text::{
    chars_of, contains, contains_exec, find_exec, find_from, lemma_contains_prefix,
    lemma_find_from, lemma_find_from_is, lemma_find_from_none, lemma_find_from_suffix, lemma_find_from_some, lemma_match_char,
    lemma_matches_in_prefix, lemma_matches_in_suffix, lemma_rfind, matches_at, push_all,
    push_chars, rfind, rfind_exec, slice_chars, string_of,
};

verus! {

/// Opening marker of the hook block.
pub const HOT_HOOK_START: &'static str = "<!-- === kimi-wallpaper-hot-hook === -->";

/// Closing marker of the hook block.
pub const HOT_HOOK_END: &'static str = "<!-- === kimi-wallpaper-hot-hook end === -->";

/// Marker that only the current (second) version of the block carries.
pub const HOOK_VERSION_MARK: &'static str = "<!-- version: v2 -->";

/// The tag before which the block is inserted.
pub const BODY_CLOSE: &'static str = "</body>";

/// The block opens with this many bytes of indentation (four spaces), which are
/// removed together with it.
pub const HOOK_BLOCK_INDENT: usize = 4;

/// The hook block as inserted into `index.html`.
pub const HOT_HOOK_BLOCK: &'static str = r#"    <!-- === kimi-wallpaper-hot-hook === -->
    <!-- version: v2 -->
    <script>
      (function () {
        var STYLE_ID = 'kimi-wallpaper-hot-style';
        var VIDEO_ID = 'kimi-wallpaper-hot-video';
        var MASK_ID = 'kimi-wallpaper-hot-mask';
        var cur = null, curVideo;
        function applyCss(css) {
          var el = document.getElementById(STYLE_ID);
          if (!el) { el = document.createElement('style'); el.id = STYLE_ID; document.head.appendChild(el); }
          if (el.textContent !== css) el.textContent = css;
        }
        function applyVideo(name) {
          if (name === curVideo) return; curVideo = name;
          var v = document.getElementById(VIDEO_ID), m = document.getElementById(MASK_ID);
          if (!name) { if (v) v.remove(); if (m) m.remove(); return; }
          if (!v) { v = document.createElement('video'); v.id = VIDEO_ID; document.body.appendChild(v); }
          v.muted = true; v.loop = true; v.autoplay = true; v.playsInline = true;
          v.setAttribute('style', 'position:fixed;left:0;top:0;width:100%;height:100%;object-fit:cover;z-index:-2;pointer-events:none');
          v.src = '/' + name + '?v=' + Date.now();
          v.play().catch(function () {});
          if (!m) { m = document.createElement('div'); m.id = MASK_ID; document.body.appendChild(m); }
          m.setAttribute('style', 'position:fixed;left:0;top:0;width:100%;height:100%;z-index:-1;pointer-events:none;background:var(--kimi-wallpaper-mask,transparent)');
        }
        function tick() {
          fetch('/kimi-wallpaper-hot.json?_=' + Date.now(), { cache: 'no-store' })
            .then(function (r) { if (!r.ok) return null; return r.json(); })
            .then(function (j) {
              if (!j || typeof j.v === 'undefined') return;
              applyVideo(typeof j.video === 'string' && j.video ? j.video : null);
              if (j.v === cur) return;
              return fetch('/kimi-wallpaper-hot.css?v=' + encodeURIComponent(j.v), { cache: 'no-store' })
                .then(function (rc) { return rc.ok ? rc.text() : ''; })
                .then(function (css) { applyCss(css); cur = j.v; });
            })
            .catch(function () { });
        }
        tick();
        setInterval(tick, 2000);
      })();
    </script>
    <!-- === kimi-wallpaper-hot-hook end === -->"#;

/// Why the hook could not be installed.
#[derive(Debug, PartialEq, Eq, Clone, Copy)]
pub enum HookError {
    /// The page has no `</body>` before which the block could go.
    NoBodyTag,
}

pub open spec fn start_mark() -> Seq<char> {
    HOT_HOOK_START@
}

pub open spec fn end_mark() -> Seq<char> {
    HOT_HOOK_END@
}

pub open spec fn version_mark() -> Seq<char> {
    HOOK_VERSION_MARK@
}

pub open spec fn block() -> Seq<char> {
    HOT_HOOK_BLOCK@
}

pub open spec fn body_close() -> Seq<char> {
    BODY_CLOSE@
}

/// How many spaces end `pre`, at most `budget`: the block's own indentation
/// before its opening marker.
pub open spec fn indent_spaces(pre: Seq<char>, budget: int) -> int
    decreases pre.len(),
{
    if budget <= 0 || pre.len() == 0 || pre.last() != ' ' {
        0
    } else {
        1 + indent_spaces(pre.drop_last(), budget - 1)
    }
}

/// A hook block is present (its opening marker occurs).
pub open spec fn hook_installed_spec(page: Seq<char>) -> bool {
    contains(page, start_mark())
}

/// A block is present but it lacks the current version marker.
pub open spec fn hook_needs_upgrade_spec(page: Seq<char>) -> bool {
    hook_installed_spec(page) && !contains(page, version_mark())
}

/// Where the block to remove starts and ends: the first opening marker and the
/// first closing marker at or after it.
pub open spec fn hook_span(page: Seq<char>) -> Option<(int, int)> {
    match find_from(page, start_mark(), 0) {
        None => None,
        Some(st) => match find_from(page, end_mark(), st) {
            None => None,
            Some(e) => Some((st, e + end_mark().len())),
        },
    }
}

/// `s` without a leading newline, if it has one.
pub open spec fn drop_newline(s: Seq<char>) -> Seq<char> {
    if s.len() > 0 && s[0] == '\n' {
        s.drop_first()
    } else {
        s
    }
}

/// The page with its hook block removed: from the block's indentation (up to
/// four spaces) before the first opening marker to the end of the first closing
/// marker after it, together with the newline that follows. Whatever else comes
/// before the marker stays. A page without a complete block is kept as it is.
pub open spec fn remove_hook_spec(page: Seq<char>) -> Seq<char> {
    match hook_span(page) {
        None => page,
        Some((st, end)) => {
            let k = indent_spaces(page.subrange(0, st), HOOK_BLOCK_INDENT as int);
            page.subrange(0, st - k) + drop_newline(page.subrange(end, page.len() as int))
        },
    }
}

/// The page with a fresh block inserted before its last `</body>`; `None` when it
/// has none.
pub open spec fn insert_block(page: Seq<char>) -> Option<Seq<char>> {
    match rfind(page, body_close()) {
        None => None,
        Some(p) => Some(page.subrange(0, p) + block() + seq!['\n'] + page.subrange(
            p,
            page.len() as int,
        )),
    }
}

/// What installing does: a page that already carries the current block is kept;
/// an older block is removed first; then the block goes before the last `</body>`.
pub open spec fn install_hook_spec(page: Seq<char>) -> Result<Seq<char>, HookError> {
    if hook_installed_spec(page) && !hook_needs_upgrade_spec(page) {
        Ok(page)
    } else {
        let base = if hook_needs_upgrade_spec(page) {
            remove_hook_spec(page)
        } else {
            page
        };
        match insert_block(base) {
            None => Err(HookError::NoBodyTag),
            Some(out) => Ok(out),
        }
    }
}

// ---------------------------------------------------------------------------
// Facts about the markers and the block
// ---------------------------------------------------------------------------

/// A match inside the middle part of a concatenation.
pub proof fn lemma_matches_in_middle(a: Seq<char>, b: Seq<char>, c: Seq<char>, pat: Seq<char>, i: int)
    requires
        0 <= i,
        i + pat.len() <= b.len(),
    ensures
        matches_at(a + b + c, pat, a.len() + i) == matches_at(b, pat, i),
{
    lemma_matches_in_prefix(a + b, c, pat, a.len() + i);
    lemma_matches_in_suffix(a, b, pat, i);
}

/// Where the markers stand inside the block.
#[verifier::rlimit(80)]
proof fn lemma_block_layout()
    ensures
        block().len() == 2346,
        start_mark().len() == 40,
        end_mark().len() == 44,
        version_mark().len() == 20,
        forall|i: int| 0 <= i < 4 ==> #[trigger] block()[i] == ' ',
        matches_at(block(), start_mark(), 4),
        matches_at(block(), version_mark(), 49),
        matches_at(block(), end_mark(), 2302),
        forall|j: int| 0 <= j < 2302 ==> !#[trigger] matches_at(block(), end_mark(), j),
        start_mark()[0] == '<',
        forall|k: int| 0 <= k < 40 && #[trigger] start_mark()[k] == ' ' ==> k < 39 && start_mark()[k + 1] != ' ',
        forall|j: int| 5 <= j <= 2306 ==> !#[trigger] matches_at(block(), start_mark(), j),
        forall|i: int| 2303 <= i < 2346 ==> #[trigger] block()[i] != '<',
{
    reveal_strlit("<!-- === kimi-wallpaper-hot-hook === -->");
    reveal_strlit("<!-- === kimi-wallpaper-hot-hook end === -->");
    reveal_strlit("<!-- version: v2 -->");
    reveal_strlit(r#"    <!-- === kimi-wallpaper-hot-hook === -->
    <!-- version: v2 -->
    <script>
      (function () {
        var STYLE_ID = 'kimi-wallpaper-hot-style';
        var VIDEO_ID = 'kimi-wallpaper-hot-video';
        var MASK_ID = 'kimi-wallpaper-hot-mask';
        var cur = null, curVideo;
        function applyCss(css) {
          var el = document.getElementById(STYLE_ID);
          if (!el) { el = document.createElement('style'); el.id = STYLE_ID; document.head.appendChild(el); }
          if (el.textContent !== css) el.textContent = css;
        }
        function applyVideo(name) {
          if (name === curVideo) return; curVideo = name;
          var v = document.getElementById(VIDEO_ID), m = document.getElementById(MASK_ID);
          if (!name) { if (v) v.remove(); if (m) m.remove(); return; }
          if (!v) { v = document.createElement('video'); v.id = VIDEO_ID; document.body.appendChild(v); }
          v.muted = true; v.loop = true; v.autoplay = true; v.playsInline = true;
          v.setAttribute('style', 'position:fixed;left:0;top:0;width:100%;height:100%;object-fit:cover;z-index:-2;pointer-events:none');
          v.src = '/' + name + '?v=' + Date.now();
          v.play().catch(function () {});
          if (!m) { m = document.createElement('div'); m.id = MASK_ID; document.body.appendChild(m); }
          m.setAttribute('style', 'position:fixed;left:0;top:0;width:100%;height:100%;z-index:-1;pointer-events:none;background:var(--kimi-wallpaper-mask,transparent)');
        }
        function tick() {
          fetch('/kimi-wallpaper-hot.json?_=' + Date.now(), { cache: 'no-store' })
            .then(function (r) { if (!r.ok) return null; return r.json(); })
            .then(function (j) {
              if (!j || typeof j.v === 'undefined') return;
              applyVideo(typeof j.video === 'string' && j.video ? j.video : null);
              if (j.v === cur) return;
              return fetch('/kimi-wallpaper-hot.css?v=' + encodeURIComponent(j.v), { cache: 'no-store' })
                .then(function (rc) { return rc.ok ? rc.text() : ''; })
                .then(function (css) { applyCss(css); cur = j.v; });
            })
            .catch(function () { });
        }
        tick();
        setInterval(tick, 2000);
      })();
    </script>
    <!-- === kimi-wallpaper-hot-hook end === -->"#);
    assert(block().subrange(4, 44) =~= start_mark());
    assert(block().subrange(49, 69) =~= version_mark());
    assert(block().subrange(2302, 2346) =~= end_mark());
    assert forall|j: int| 0 <= j < 2302 implies !#[trigger] matches_at(block(), end_mark(), j) by {
        if matches_at(block(), end_mark(), j) {
            lemma_match_char(block(), end_mark(), j, 0);
            lemma_match_char(block(), end_mark(), j, 1);
            lemma_match_char(block(), end_mark(), j, 5);
            lemma_match_char(block(), end_mark(), j, 33);
        }
    }
    assert forall|j: int| 5 <= j <= 2306 implies !#[trigger] matches_at(block(), start_mark(), j) by {
        if matches_at(block(), start_mark(), j) {
            lemma_match_char(block(), start_mark(), j, 0);
            lemma_match_char(block(), start_mark(), j, 1);
            lemma_match_char(block(), start_mark(), j, 5);
            lemma_match_char(block(), start_mark(), j, 33);
        }
    }
    assert forall|i: int| 2303 <= i < 2346 implies #[trigger] block()[i] != '<' by {
        assert(block()[i] == end_mark()[i - 2302]);
    }
}

/// The block is found where it was inserted: the opening marker right after its
/// indentation, the closing marker at its end.
proof fn lemma_inserted_layout(a: Seq<char>, c: Seq<char>)
    requires
        !contains(a, start_mark()),
    ensures
        ({
            let out = a + block() + c;
            &&& find_from(out, start_mark(), 0) == Some(a.len() + 4int)
            &&& find_from(out, end_mark(), a.len() + 4int) == Some(a.len() + 2302int)
            &&& matches_at(out, version_mark(), a.len() + 49int)
        }),
{
    let out = a + block() + c;
    lemma_block_layout();
    lemma_find_from(a, start_mark(), 0);
    lemma_matches_in_middle(a, block(), c, start_mark(), 4);
    lemma_matches_in_middle(a, block(), c, end_mark(), 2302);
    lemma_matches_in_middle(a, block(), c, version_mark(), 49);
    assert forall|j: int| 0 <= j < a.len() + 4 implies !#[trigger] matches_at(
        out,
        start_mark(),
        j,
    ) by {
        if matches_at(out, start_mark(), j) {
            if j + 40 <= a.len() {
                lemma_matches_in_prefix(a, block() + c, start_mark(), j);
                assert(out =~= a + (block() + c));
            } else if j < a.len() {
                let k = a.len() - j;
                lemma_match_char(out, start_mark(), j, k);
                assert(out[a.len() as int] == block()[0]);
                if start_mark()[k] == ' ' {
                    lemma_match_char(out, start_mark(), j, k + 1);
                    assert(out[a.len() + 1int] == block()[1]);
                }
            } else {
                lemma_match_char(out, start_mark(), j, 0);
                assert(out[j] == block()[j - a.len()]);
            }
        }
    }
    lemma_find_from_is(out, start_mark(), 0, a.len() + 4int);
    assert forall|j: int| a.len() + 4 <= j < a.len() + 2302 implies !#[trigger] matches_at(
        out,
        end_mark(),
        j,
    ) by {
        lemma_matches_in_middle(a, block(), c, end_mark(), j - a.len());
    }
    lemma_find_from_is(out, end_mark(), a.len() + 4int, a.len() + 2302int);
}

/// Four spaces before the marker are the whole indentation that is cut.
proof fn lemma_indent_of_spaces(pre: Seq<char>)
    requires
        pre.len() >= 4,
        forall|i: int| pre.len() - 4 <= i < pre.len() ==> #[trigger] pre[i] == ' ',
    ensures
        indent_spaces(pre, 4) == 4,
{
    let p1 = pre.drop_last();
    let p2 = p1.drop_last();
    let p3 = p2.drop_last();
    let p4 = p3.drop_last();
    assert(pre.last() == pre[pre.len() - 1]);
    assert(p1.last() == pre[pre.len() - 2]);
    assert(p2.last() == pre[pre.len() - 3]);
    assert(p3.last() == pre[pre.len() - 4]);
    assert(indent_spaces(p4, 0) == 0);
    assert(indent_spaces(p3, 1) == 1);
    assert(indent_spaces(p2, 2) == 2);
    assert(indent_spaces(p1, 3) == 3);
}

// ---------------------------------------------------------------------------
// Laws
// ---------------------------------------------------------------------------

/// Removing the hook from a page that it was just installed into gives back the
/// page exactly, for a page without a hook block and with a `</body>`.
pub proof fn law_remove_undoes_install(page: Seq<char>)
    requires
        !hook_installed_spec(page),
        rfind(page, body_close()) is Some,
    ensures
        install_hook_spec(page) matches Ok(out) && remove_hook_spec(out) == page,
{
    let p = rfind(page, body_close())->0;
    lemma_rfind(page, body_close());
    let a = page.subrange(0, p);
    let c = page.subrange(p, page.len() as int);
    let rest = seq!['\n'] + c;
    let out = a + block() + rest;
    assert(insert_block(page) == Some(out));
    lemma_contains_prefix(page, p, start_mark());
    lemma_inserted_layout(a, rest);
    lemma_block_layout();
    assert(hook_span(out) == Some((a.len() + 4int, a.len() + 2346int)));
    let pre = out.subrange(0, a.len() + 4int);
    assert forall|i: int| pre.len() - 4 <= i < pre.len() implies #[trigger] pre[i] == ' ' by {
        assert(pre[i] == block()[i - a.len()]);
    }
    lemma_indent_of_spaces(pre);
    assert(out.subrange(0, a.len() as int) =~= a);
    assert(out.subrange(a.len() + 2346int, out.len() as int) =~= rest);
    assert(drop_newline(rest) =~= c);
    assert(a + c =~= page);
}

/// A page that installing returns carries the current block, so installing again
/// returns it unchanged.
pub proof fn law_install_idempotent(page: Seq<char>)
    requires
        install_hook_spec(page) is Ok,
    ensures
        hook_installed_spec(install_hook_spec(page)->Ok_0),
        !hook_needs_upgrade_spec(install_hook_spec(page)->Ok_0),
        install_hook_spec(install_hook_spec(page)->Ok_0) == install_hook_spec(page),
{
    let out = install_hook_spec(page)->Ok_0;
    if !(hook_installed_spec(page) && !hook_needs_upgrade_spec(page)) {
        let base = if hook_needs_upgrade_spec(page) {
            remove_hook_spec(page)
        } else {
            page
        };
        let p = rfind(base, body_close())->0;
        lemma_rfind(base, body_close());
        let a = base.subrange(0, p);
        let rest = seq!['\n'] + base.subrange(p, base.len() as int);
        assert(out == a + block() + rest);
        lemma_block_layout();
        lemma_matches_in_middle(a, block(), rest, start_mark(), 4);
        lemma_matches_in_middle(a, block(), rest, version_mark(), 49);
        lemma_find_from_some(out, start_mark(), 0, a.len() + 4int);
        lemma_find_from_some(out, version_mark(), 0, a.len() + 49int);
    }
}

/// A page without a hook block is left as it is by removal.
pub proof fn law_remove_without_hook(page: Seq<char>)
    requires
        !hook_installed_spec(page),
    ensures
        remove_hook_spec(page) == page,
{
}

/// Removing from a page without a complete block (no opening marker, or no
/// closing marker after it) changes nothing.
pub proof fn law_remove_incomplete(page: Seq<char>)
    requires
        hook_span(page) is None,
    ensures
        remove_hook_spec(page) == page,
{
}

/// Removing twice is removing once, for a page the hook was installed into.
pub proof fn law_remove_twice(page: Seq<char>)
    requires
        !hook_installed_spec(page),
        rfind(page, body_close()) is Some,
    ensures
        install_hook_spec(page) matches Ok(out) && remove_hook_spec(remove_hook_spec(out))
            == remove_hook_spec(out),
{
    law_remove_undoes_install(page);
    law_remove_without_hook(page);
}

/// Which hook, if any, a page carries.
#[derive(Clone, Copy, Debug, PartialEq, Eq)]
pub enum HookStatus {
    /// No hook block.
    Absent,
    /// A block without the current version marker.
    Outdated,
    /// The current block.
    Current,
}

/// The hook status of a page.
pub open spec fn hook_status_spec(page: Seq<char>) -> HookStatus {
    if !hook_installed_spec(page) {
        HookStatus::Absent
    } else if hook_needs_upgrade_spec(page) {
        HookStatus::Outdated
    } else {
        HookStatus::Current
    }
}

/// The opening marker occurs once in `s`, at `i`.
pub open spec fn marker_once_at(s: Seq<char>, i: int) -> bool {
    find_from(s, start_mark(), 0) == Some(i) && find_from(s, start_mark(), i + 1) is None
}

/// A page with the block inserted holds the opening marker exactly once, when
/// the page did not hold it.
proof fn lemma_inserted_once(a: Seq<char>, c: Seq<char>)
    requires
        !contains(a, start_mark()),
        !contains(c, start_mark()),
    ensures
        marker_once_at(a + block() + seq!['\n'] + c, a.len() + 4int),
{
    let rest = seq!['\n'] + c;
    let out = a + block() + rest;
    assert(out =~= a + block() + seq!['\n'] + c);
    lemma_inserted_layout(a, rest);
    lemma_block_layout();
    lemma_find_from(c, start_mark(), 0);
    assert forall|j: int| a.len() + 5 <= j implies !#[trigger] matches_at(out, start_mark(), j) by {
        if matches_at(out, start_mark(), j) {
            let q = j - a.len();
            if q <= 2306 {
                lemma_matches_in_middle(a, block(), rest, start_mark(), q);
            } else if q < 2346 {
                lemma_match_char(out, start_mark(), j, 0);
                assert(out[j] == block()[q]);
            } else if q == 2346 {
                lemma_match_char(out, start_mark(), j, 0);
                assert(out[j] == rest[0]);
            } else {
                assert(out =~= (a + block() + seq!['\n']) + c);
                lemma_matches_in_suffix(a + block() + seq!['\n'], c, start_mark(), q - 2347);
            }
        }
    }
    lemma_find_from_none(out, start_mark(), a.len() + 5int);
}

/// Installing into a page without a hook, or upgrading an older hook whose
/// removal leaves no opening marker behind, gives a page with exactly one
/// opening marker, the current block, that a second install leaves alone.
pub proof fn law_install_single_block(page: Seq<char>)
    requires
        install_hook_spec(page) is Ok,
        !hook_installed_spec(page) || (hook_needs_upgrade_spec(page) && !hook_installed_spec(
            remove_hook_spec(page),
        )),
    ensures
        exists|i: int| #[trigger] marker_once_at(install_hook_spec(page)->Ok_0, i),
        hook_installed_spec(install_hook_spec(page)->Ok_0),
        !hook_needs_upgrade_spec(install_hook_spec(page)->Ok_0),
        install_hook_spec(install_hook_spec(page)->Ok_0) == install_hook_spec(page),
{
    law_install_idempotent(page);
    let base = if hook_needs_upgrade_spec(page) {
        remove_hook_spec(page)
    } else {
        page
    };
    let p = rfind(base, body_close())->0;
    lemma_rfind(base, body_close());
    let a = base.subrange(0, p);
    let c = base.subrange(p, base.len() as int);
    lemma_contains_prefix(base, p, start_mark());
    lemma_find_from(base, start_mark(), 0);
    lemma_find_from_none(base, start_mark(), p);
    lemma_find_from_suffix(base, start_mark(), p, 0);
    assert(install_hook_spec(page)->Ok_0 == a + block() + seq!['\n'] + c);
    lemma_inserted_once(a, c);
}

// ---------------------------------------------------------------------------
// Executable functions
// ---------------------------------------------------------------------------

/// Whether a hook block is present in the page.
pub fn hook_installed(index_html_content: &str) -> (r: bool)
    ensures
        r == hook_installed_spec(index_html_content@),
{
    let page = chars_of(index_html_content);
    let mark = chars_of(HOT_HOOK_START);
    contains_exec(&page, &mark)
}

/// Whether the page carries an older block, one without the version marker.
pub fn hook_needs_upgrade(index_html_content: &str) -> (r: bool)
    ensures
        r == hook_needs_upgrade_spec(index_html_content@),
{
    let page = chars_of(index_html_content);
    let mark = chars_of(HOOK_VERSION_MARK);
    hook_installed(index_html_content) && !contains_exec(&page, &mark)
}

/// Which hook, if any, the page carries.
pub fn hook_status(index_html_content: &str) -> (r: HookStatus)
    ensures
        r == hook_status_spec(index_html_content@),
{
    if !hook_installed(index_html_content) {
        HookStatus::Absent
    } else if hook_needs_upgrade(index_html_content) {
        HookStatus::Outdated
    } else {
        HookStatus::Current
    }
}

/// How many spaces, at most `budget`, stand right before position `st`.
fn indent_spaces_exec(s: &Vec<char>, st: usize, budget: usize) -> (k: usize)
    requires
        st <= s@.len(),
    ensures
        k == indent_spaces(s@.subrange(0, st as int), budget as int),
        k <= st,
{
    let mut k: usize = 0;
    let mut b: usize = budget;
    loop
        invariant
            k <= st <= s@.len(),
            k + b == budget,
            indent_spaces(s@.subrange(0, st as int), budget as int) == k + indent_spaces(
                s@.subrange(0, st - k),
                b as int,
            ),
        decreases st - k,
    {
        if b == 0 || k == st {
            return k;
        }
        let c = s[st - k - 1];
        let ghost pre = s@.subrange(0, st - k);
        assert(pre.last() == c);
        assert(pre.drop_last() =~= s@.subrange(0, st - k - 1));
        if c != ' ' {
            return k;
        }
        b = b - 1;
        k = k + 1;
    }
}

/// Removes the whole hook block (marker lines, its own indentation and the
/// newline after it). A page without a complete block is returned unchanged.
pub fn remove_hook(index_html_content: &str) -> (r: String)
    ensures
        r@ == remove_hook_spec(index_html_content@),
{
    let s = chars_of(index_html_content);
    let n = s.len();
    let start_m = chars_of(HOT_HOOK_START);
    let end_m = chars_of(HOT_HOOK_END);
    let start = match find_exec(&s, &start_m, 0) {
        None => {
            return string_of(&s);
        },
        Some(x) => x,
    };
    proof {
        lemma_find_from(s@, start_mark(), 0);
    }
    let e = match find_exec(&s, &end_m, start) {
        None => {
            return string_of(&s);
        },
        Some(x) => x,
    };
    proof {
        lemma_find_from(s@, end_mark(), start as int);
        assert(e + end_m@.len() <= n);
    }
    let end = e + end_m.len();
    let k = indent_spaces_exec(&s, start, HOOK_BLOCK_INDENT);
    let mut out = slice_chars(&s, 0, start - k);
    let rest_lo = if end < s.len() && s[end] == '\n' {
        end + 1
    } else {
        end
    };
    proof {
        let rest = s@.subrange(end as int, s@.len() as int);
        if end < s@.len() && s@[end as int] == '\n' {
            assert(drop_newline(rest) =~= s@.subrange(rest_lo as int, s@.len() as int));
        }
    }
    push_chars(&mut out, &s, rest_lo, s.len());
    string_of(&out)
}

/// Inserts the hook block before the last `</body>`. A page that already carries
/// the current block is returned unchanged; an older block is replaced.
pub fn install_hook(index_html_content: &str) -> (r: Result<String, HookError>)
    ensures
        match r {
            Ok(s) => install_hook_spec(index_html_content@) == Ok::<Seq<char>, HookError>(s@),
            Err(e) => install_hook_spec(index_html_content@) == Err::<Seq<char>, HookError>(e),
        },
{
    let installed = hook_installed(index_html_content);
    let upgrade = hook_needs_upgrade(index_html_content);
    if installed && !upgrade {
        let s = chars_of(index_html_content);
        return Ok(string_of(&s));
    }
    let base: Vec<char> = if upgrade {
        let removed = remove_hook(index_html_content);
        chars_of(removed.as_str())
    } else {
        chars_of(index_html_content)
    };
    let tag = chars_of(BODY_CLOSE);
    let pos = match rfind_exec(&base, &tag) {
        None => {
            return Err(HookError::NoBodyTag);
        },
        Some(p) => p,
    };
    proof {
        lemma_rfind(base@, body_close());
    }
    let blk = chars_of(HOT_HOOK_BLOCK);
    let mut out = slice_chars(&base, 0, pos);
    push_all(&mut out, &blk);
    out.push('\n');
    push_chars(&mut out, &base, pos, base.len());
    proof {
        assert(out@ =~= base@.subrange(0, pos as int) + block() + seq!['\n'] + base@.subrange(
            pos as int,
            base@.len() as int,
        ));
    }
    Ok(string_of(&out))
}

} // verus!
