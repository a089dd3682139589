//! Decisions behind the commands the settings window and the tray call:
//! which folder uninstalling may delete, and the payloads of demo and
//! snoozed flybys.

use vstd::prelude::*;
use crate::calendar::{sanitize_title, sanitized_title};
use crate::scheduler::{percent_encode, percent_encoded};
use crate::text::{
    alnum_only, chars_of, concat_chars, find, find_chars, has_prefix, keep_ascii_alnum, lemma_find_from_occurs,
    occurs_at, slice_chars, starts_with, string_of, take_chars,
};
use vstd::utf8::encode_utf8;

verus! {

/// One component of a Unix path, as `std::path::Component` reports it.
#[derive(Debug)]
pub enum PathComponent {
    RootDir,
    CurDir,
    ParentDir,
    Normal(Vec<char>),
}

/// A path component as plain values.
pub enum ComponentView {
    RootDir,
    CurDir,
    ParentDir,
    Normal(Seq<char>),
}

impl View for PathComponent {
    type V = ComponentView;

    open spec fn view(&self) -> ComponentView {
        match self {
            PathComponent::RootDir => ComponentView::RootDir,
            PathComponent::CurDir => ComponentView::CurDir,
            PathComponent::ParentDir => ComponentView::ParentDir,
            PathComponent::Normal(n) => ComponentView::Normal(n@),
        }
    }
}

pub open spec fn components_view(v: Seq<PathComponent>) -> Seq<ComponentView> {
    v.map_values(|c: PathComponent| c@)
}

/// The pieces of `s` between `/` separators (empty pieces included).
pub open spec fn path_pieces(s: Seq<char>) -> Seq<Seq<char>>
    decreases s.len(),
{
    match find(s, seq!['/']) {
        Some(i) => {
            proof {
                lemma_find_from_occurs(s, seq!['/'], 0);
            }
            if s.skip(i + 1).len() < s.len() {
                seq![s.take(i)] + path_pieces(s.skip(i + 1))
            } else {
                seq![s]
            }
        },
        None => seq![s],
    }
}

/// The component a piece stands for: `.` only counts as the first piece of
/// a relative path, empty pieces count for nothing.
pub open spec fn piece_component(p: Seq<char>, first_of_relative: bool) -> Option<ComponentView> {
    if p == seq!['.'] {
        if first_of_relative {
            Some(ComponentView::CurDir)
        } else {
            None
        }
    } else if p == seq!['.', '.'] {
        Some(ComponentView::ParentDir)
    } else if p.len() == 0 {
        None
    } else {
        Some(ComponentView::Normal(p))
    }
}

pub open spec fn pieces_components(ps: Seq<Seq<char>>, first_of_relative: bool) -> Seq<ComponentView>
    decreases ps.len(),
{
    if ps.len() == 0 {
        Seq::empty()
    } else {
        let head = match piece_component(ps[0], first_of_relative) {
            Some(c) => seq![c],
            None => Seq::empty(),
        };
        head + pieces_components(ps.drop_first(), false)
    }
}

pub open spec fn has_root(s: Seq<char>) -> bool {
    s.len() > 0 && s[0] == '/'
}

/// `Path::components` of a Unix path.
pub open spec fn path_components(s: Seq<char>) -> Seq<ComponentView> {
    if has_root(s) {
        seq![ComponentView::RootDir] + pieces_components(path_pieces(s), false)
    } else {
        pieces_components(path_pieces(s), true)
    }
}

fn path_pieces_exec(s: &Vec<char>) -> (r: Vec<Vec<char>>)
    ensures
        r@.map_values(|p: Vec<char>| p@) == path_pieces(s@),
{
    let slash: Vec<char> = vec!['/'];
    assert(slash@ =~= seq!['/']);
    let mut out: Vec<Vec<char>> = Vec::new();
    let mut rest = slice_chars(s, 0, s.len());
    assert(rest@ =~= s@);
    loop
        invariant
            slash@ == seq!['/'],
            out@.map_values(|p: Vec<char>| p@) + path_pieces(rest@) == path_pieces(s@),
        decreases rest@.len(),
    {
        proof {
            lemma_find_from_occurs(rest@, slash@, 0);
        }
        let ghost r0 = rest@;
        match find_chars(&rest, &slash) {
            Some(i) => {
                assert(occurs_at(rest@, slash@, i as int));
                let rl = rest.len();
                assert(i + 1 <= rl);
                let piece = slice_chars(&rest, 0, i);
                let next = slice_chars(&rest, i + 1, rl);
                assert(piece@ =~= r0.take(i as int));
                assert(next@ =~= r0.skip(i + 1));
                assert(path_pieces(r0) == seq![piece@] + path_pieces(next@));
                let ghost before = out@.map_values(|p: Vec<char>| p@);
                out.push(piece);
                assert(out@.map_values(|p: Vec<char>| p@) =~= before.push(piece@));
                assert(out@.map_values(|p: Vec<char>| p@) + path_pieces(next@) =~= before + path_pieces(r0));
                rest = next;
            },
            None => {
                assert(path_pieces(r0) == seq![r0]);
                let ghost before = out@.map_values(|p: Vec<char>| p@);
                out.push(rest);
                assert(out@.map_values(|p: Vec<char>| p@) =~= before + path_pieces(r0));
                return out;
            },
        }
    }
}

fn is_text(p: &Vec<char>, t: &Vec<char>) -> (b: bool)
    ensures
        b == (p@ == t@),
{
    if p.len() != t.len() {
        return false;
    }
    let mut i: usize = 0;
    while i < p.len()
        invariant
            i <= p.len() == t.len(),
            forall|k: int| 0 <= k < i ==> p@[k] == t@[k],
        decreases p.len() - i,
    {
        if p[i] != t[i] {
            return false;
        }
        i += 1;
    }
    assert(p@ =~= t@);
    true
}

/// `Path::components` of a Unix path.
pub fn components(path: &str) -> (r: Vec<PathComponent>)
    ensures
        components_view(r@) == path_components(path@),
{
    let s = chars_of(path);
    let pieces = path_pieces_exec(&s);
    let ghost ps = pieces@.map_values(|p: Vec<char>| p@);
    let root = s.len() > 0 && s[0] == '/';
    let mut out: Vec<PathComponent> = Vec::new();
    if root {
        out.push(PathComponent::RootDir);
    }
    let dot: Vec<char> = vec!['.'];
    let dotdot: Vec<char> = vec!['.', '.'];
    assert(dot@ =~= seq!['.']);
    assert(dotdot@ =~= seq!['.', '.']);
    let ghost start = components_view(out@);
    let mut i: usize = 0;
    assert(ps.skip(0) =~= ps);
    while i < pieces.len()
        invariant
            i <= pieces.len(),
            ps == pieces@.map_values(|p: Vec<char>| p@),
            dot@ == seq!['.'],
            dotdot@ == seq!['.', '.'],
            components_view(out@) + pieces_components(ps.skip(i as int), i == 0 && !root)
                == start + pieces_components(ps, !root),
        decreases pieces.len() - i,
    {
        let p = &pieces[i];
        let ghost before = components_view(out@);
        let first = i == 0 && !root;
        assert(ps.skip(i as int).drop_first() =~= ps.skip(i + 1));
        assert(ps.skip(i as int)[0] == p@);
        if is_text(p, &dot) {
            if first {
                out.push(PathComponent::CurDir);
            }
        } else if is_text(p, &dotdot) {
            out.push(PathComponent::ParentDir);
        } else if p.len() > 0 {
            out.push(PathComponent::Normal(slice_chars(p, 0, p.len())));
            assert(p@.subrange(0, p@.len() as int) =~= p@);
        }
        assert(components_view(out@) + pieces_components(ps.skip(i + 1), false) =~= before
            + pieces_components(ps.skip(i as int), first));
        i += 1;
    }
    assert(ps.skip(pieces.len() as int) =~= Seq::<Seq<char>>::empty());
    assert(components_view(out@) =~= start + pieces_components(ps, !root));
    out
}


/// `b` is a leading part of `c` (`Path::starts_with`).
pub open spec fn components_start_with(c: Seq<ComponentView>, b: Seq<ComponentView>) -> bool {
    b.len() <= c.len() && c.take(b.len() as int) == b
}

/// The components of `Path::parent`, when there is a parent.
pub open spec fn parent_components(c: Seq<ComponentView>) -> Option<Seq<ComponentView>> {
    if c.len() > 0 && !(c.last() is RootDir) {
        Some(c.drop_last())
    } else {
        None
    }
}

/// `Path::file_name`: the last component when it is a plain name.
pub open spec fn file_name_of(c: Seq<ComponentView>) -> Option<Seq<char>> {
    if c.len() > 0 && c.last() is Normal {
        Some(c.last()->Normal_0)
    } else {
        None
    }
}

/// The name of the application's own folder.
pub open spec fn own_folder_name() -> Seq<char> {
    seq!['P', 't', 'a', 'c', 'e', 'k']
}

/// Uninstalling may delete `root` only when it is an absolute path lying
/// directly in `base`, is not `base` itself and is named `Ptacek`.
pub open spec fn removal_allowed(root: Seq<char>, base: Option<Seq<char>>) -> bool {
    match base {
        None => false,
        Some(b) => {
            let c = path_components(root);
            let bc = path_components(b);
            &&& has_root(root)
            &&& components_start_with(c, bc)
            &&& c != bc
            &&& parent_components(c) == Some(bc)
            &&& file_name_of(c) == Some(own_folder_name())
        },
    }
}

fn component_eq(x: &PathComponent, y: &PathComponent) -> (b: bool)
    ensures
        b == (x@ == y@),
{
    match (x, y) {
        (PathComponent::RootDir, PathComponent::RootDir) => true,
        (PathComponent::CurDir, PathComponent::CurDir) => true,
        (PathComponent::ParentDir, PathComponent::ParentDir) => true,
        (PathComponent::Normal(a), PathComponent::Normal(b)) => is_text(a, b),
        _ => false,
    }
}

/// The first `n` components of `a` and `b` agree.
fn same_first(a: &Vec<PathComponent>, b: &Vec<PathComponent>, n: usize) -> (r: bool)
    requires
        n <= a.len(),
        n <= b.len(),
    ensures
        r == (components_view(a@).take(n as int) == components_view(b@).take(n as int)),
{
    let ghost av = components_view(a@);
    let ghost bv = components_view(b@);
    let mut i: usize = 0;
    while i < n
        invariant
            i <= n <= a.len(),
            n <= b.len(),
            av == components_view(a@),
            bv == components_view(b@),
            forall|k: int| 0 <= k < i ==> av[k] == bv[k],
        decreases n - i,
    {
        if !component_eq(&a[i], &b[i]) {
            assert(av.take(n as int)[i as int] != bv.take(n as int)[i as int]);
            return false;
        }
        i += 1;
    }
    assert(av.take(n as int) =~= bv.take(n as int));
    true
}

/// May uninstalling delete `root`? Only the application's own folder
/// `Ptacek` directly inside `base` (the user's Application Support folder),
/// given as an absolute path; without a known `base`, never.
pub fn safe_to_remove(root: &str, base: Option<&str>) -> (r: bool)
    ensures
        r == removal_allowed(root@, match base {
            Some(b) => Some(b@),
            None => None,
        }),
{
    let b = match base {
        None => return false,
        Some(b) => b,
    };
    let c = components(root);
    let bc = components(b);
    let ghost cv = components_view(c@);
    let ghost bv = components_view(bc@);
    let rs = chars_of(root);
    let absolute = rs.len() > 0 && rs[0] == '/';
    if !absolute {
        return false;
    }
    if bc.len() > c.len() || !same_first(&c, &bc, bc.len()) {
        assert(bv.len() > cv.len() || cv.take(bv.len() as int) != bv.take(bv.len() as int));
        assert(bv.take(bv.len() as int) =~= bv);
        return false;
    }
    assert(bv.take(bv.len() as int) =~= bv);
    if c.len() == bc.len() {
        assert(cv =~= cv.take(bv.len() as int));
        return false;
    }
    // now c is strictly longer than bc and starts with it
    let last = &c[c.len() - 1];
    let is_root = match last {
        PathComponent::RootDir => true,
        _ => false,
    };
    if is_root {
        return false;
    }
    if c.len() - 1 != bc.len() {
        assert(cv.drop_last().len() != bv.len());
        return false;
    }
    assert(cv.drop_last() =~= cv.take(bv.len() as int));
    let own: Vec<char> = vec!['P', 't', 'a', 'c', 'e', 'k'];
    assert(own@ =~= own_folder_name());
    match last {
        PathComponent::Normal(name) => is_text(name, &own),
        _ => false,
    }
}

} // verus!

verus! {

/// The overlay query of a trial flyby with the chosen mascot ("random"
/// when none is chosen).
pub open spec fn demo_query_text(mascot: Option<Seq<char>>) -> Seq<char> {
    "mode=demo&mascot="@ + alnum_only(
        match mascot {
            Some(m) => m,
            None => "random"@,
        },
    )
}

/// Builds the overlay query of a trial flyby. The mascot id comes from the
/// UI; only ASCII letters and digits of it are kept, so that it cannot
/// break the query.
pub fn demo_query(mascot: Option<String>) -> (r: String)
    ensures
        r@ == demo_query_text(
            match mascot {
                Some(m) => Some(m@),
                None => None,
            },
        ),
{
    let id: String = match mascot {
        Some(m) => m,
        None => "random".to_owned(),
    };
    let mut q = chars_of("mode=demo&mascot=");
    q = concat_chars(&q, &keep_ascii_alnum(id.as_str()));
    string_of(&q)
}

/// Longest snoozed start time kept, in characters.
pub const SNOOZE_TIME_CHARS: usize = 16;

/// The overlay query of a snoozed flyby: the title from the webview is
/// cleaned again, the time cut to 16 characters, both percent-encoded.
pub open spec fn snooze_query_text(title: Seq<char>, time: Seq<char>, mascot: Seq<char>) -> Seq<char> {
    let t = if time.len() <= SNOOZE_TIME_CHARS { time } else { time.take(SNOOZE_TIME_CHARS as int) };
    "mode=event&mascot="@ + alnum_only(mascot) + "&title="@ + percent_encoded(encode_utf8(sanitized_title(title)))
        + "&time="@ + percent_encoded(encode_utf8(t))
}

/// Builds the overlay query for a flyby snoozed by the user.
pub fn snooze_query(title: &str, time: &str, mascot: &str) -> (r: String)
    ensures
        r@ == snooze_query_text(title@, time@, mascot@),
{
    let clean = sanitize_title(title);
    let t = string_of(&take_chars(time, SNOOZE_TIME_CHARS));
    let title_enc = percent_encode(clean.as_str());
    let time_enc = percent_encode(t.as_str());
    let mut q = chars_of("mode=event&mascot=");
    q = concat_chars(&q, &keep_ascii_alnum(mascot));
    q = concat_chars(&q, &chars_of("&title="));
    q = concat_chars(&q, &chars_of(title_enc.as_str()));
    q = concat_chars(&q, &chars_of("&time="));
    q = concat_chars(&q, &chars_of(time_enc.as_str()));
    string_of(&q)
}

} // verus!

verus! {

/// Is the app running from a mounted disk image or from App
/// Translocation? There it forgets its settings and calendar permission,
/// and the user is told to install it first.
pub fn runs_from_temporary_location(exe_path: &str) -> (b: bool)
    ensures
        b == (has_prefix(exe_path@, "/Volumes/"@) || find(exe_path@, "/AppTranslocation/"@) is Some),
{
    let v = chars_of(exe_path);
    let t = chars_of("/AppTranslocation/");
    starts_with(exe_path, "/Volumes/") || find_chars(&v, &t).is_some()
}

} // verus!

verus! {

/// Uninstalling deletes nothing but the app's own folder: whenever removal
/// is allowed, the path is absolute and is the base folder with exactly one
/// more component, the name "Ptacek". Without a known base nothing is
/// removed.
pub proof fn removal_only_of_own_folder(root: Seq<char>, base: Option<Seq<char>>)
    ensures
        base is None ==> !removal_allowed(root, base),
        removal_allowed(root, base) ==> {
            &&& has_root(root)
            &&& path_components(root) == path_components(base->0).push(ComponentView::Normal(own_folder_name()))
        },
{
    if removal_allowed(root, base) {
        let c = path_components(root);
        assert(c =~= c.drop_last().push(c.last()));
    }
}

} // verus!
