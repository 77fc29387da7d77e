//! Font catalogue and monochrome text layout.
//!
//! Font files are scanned and glyphs rasterized by FreeType outside this module;
//! here the fonts are grouped into families, a face is chosen for a request, and
//! rasterized glyphs are laid out into a bitmap.

use vstd::prelude::*;

use crate::order::{has_name, insert_name, names_increasing};
use crate::engine::bitmap::{bit_of, fits_bitmap, Bitmap1Bit};
use crate::engine::qr::str_eq;

verus! {

/// Strictly increasing integers (hence no value twice).
pub open spec fn increasing_u16(s: Seq<u16>) -> bool {
    forall|i: int, j: int| 0 <= i < j < s.len() ==> #[trigger] s[i] < #[trigger] s[j]
}

pub open spec fn increasing_i32(s: Seq<i32>) -> bool {
    forall|i: int, j: int| 0 <= i < j < s.len() ==> #[trigger] s[i] < #[trigger] s[j]
}

fn insert_u16(v: &mut Vec<u16>, x: u16)
    requires
        increasing_u16(old(v)@),
    ensures
        increasing_u16(final(v)@),
        forall|y: u16| final(v)@.contains(y) <==> (old(v)@.contains(y) || y == x),
{
    let mut p: usize = 0;
    while p < v.len() && v[p] < x
        invariant
            p <= v@.len(),
            increasing_u16(v@),
            forall|k: int| 0 <= k < p ==> #[trigger] v@[k] < x,
        decreases v@.len() - p,
    {
        p = p + 1;
    }
    if p < v.len() && v[p] == x {
        return;
    }
    let ghost old_v = v@;
    v.insert(p, x);
    proof {
        let s2 = v@;
        assert forall|i: int, j: int| 0 <= i < j < s2.len() implies #[trigger] s2[i] < #[trigger] s2[j] by {
            if i < p && j == p {
            } else if i == p && j > p {
                assert(old_v[p as int] <= old_v[j - 1]);
            } else if i < p && j > p {
                assert(old_v[i] < old_v[j - 1]);
            } else if i > p {
                assert(old_v[i - 1] < old_v[j - 1]);
            } else {
                assert(old_v[i] < old_v[j]);
            }
        }
        assert forall|y: u16| s2.contains(y) <==> (old_v.contains(y) || y == x) by {
            if s2.contains(y) {
                let k = choose|k: int| 0 <= k < s2.len() && s2[k] == y;
                if k < p {
                    assert(old_v[k] == y);
                } else if k > p {
                    assert(old_v[k - 1] == y);
                }
            }
            if old_v.contains(y) {
                let k = choose|k: int| 0 <= k < old_v.len() && old_v[k] == y;
                if k < p {
                    assert(s2[k] == y);
                } else {
                    assert(s2[k + 1] == y);
                }
            }
            if y == x {
                assert(s2[p as int] == y);
            }
        }
    }
}

fn insert_i32(v: &mut Vec<i32>, x: i32)
    requires
        increasing_i32(old(v)@),
    ensures
        increasing_i32(final(v)@),
        forall|y: i32| final(v)@.contains(y) <==> (old(v)@.contains(y) || y == x),
{
    let mut p: usize = 0;
    while p < v.len() && v[p] < x
        invariant
            p <= v@.len(),
            increasing_i32(v@),
            forall|k: int| 0 <= k < p ==> #[trigger] v@[k] < x,
        decreases v@.len() - p,
    {
        p = p + 1;
    }
    if p < v.len() && v[p] == x {
        return;
    }
    let ghost old_v = v@;
    v.insert(p, x);
    proof {
        let s2 = v@;
        assert forall|i: int, j: int| 0 <= i < j < s2.len() implies #[trigger] s2[i] < #[trigger] s2[j] by {
            if i < p && j == p {
            } else if i == p && j > p {
                assert(old_v[p as int] <= old_v[j - 1]);
            } else if i < p && j > p {
                assert(old_v[i] < old_v[j - 1]);
            } else if i > p {
                assert(old_v[i - 1] < old_v[j - 1]);
            } else {
                assert(old_v[i] < old_v[j]);
            }
        }
        assert forall|y: i32| s2.contains(y) <==> (old_v.contains(y) || y == x) by {
            if s2.contains(y) {
                let k = choose|k: int| 0 <= k < s2.len() && s2[k] == y;
                if k < p {
                    assert(old_v[k] == y);
                } else if k > p {
                    assert(old_v[k - 1] == y);
                }
            }
            if old_v.contains(y) {
                let k = choose|k: int| 0 <= k < old_v.len() && old_v[k] == y;
                if k < p {
                    assert(s2[k] == y);
                } else {
                    assert(s2[k + 1] == y);
                }
            }
            if y == x {
                assert(s2[p as int] == y);
            }
        }
    }
}

/// A font family as offered to the user.
#[derive(Debug, Clone)]
pub struct FontInfo {
    pub family: String,
    pub weights: Vec<u16>,
    pub has_italic: bool,
    /// Available pixel heights for bitmap fonts; empty for scalable fonts.
    pub available_sizes: Vec<i32>,
}

/// Favourite families (in the configured order) and the other system families.
#[derive(Debug, Clone)]
pub struct FontGroups {
    pub favourites: Vec<FontInfo>,
    pub system: Vec<FontInfo>,
}

/// One loaded font face.
#[derive(Debug, Clone)]
pub struct FontEntry {
    pub path: String,
    pub face_index: isize,
    pub family: String,
    pub weight: u16,
    pub italic: bool,
    pub is_bitmap: bool,
    pub available_sizes: Vec<i32>,
}

/// The loaded faces and their grouping into families.
pub struct FontStore {
    fonts: Vec<FontEntry>,
    groups: FontGroups,
}

/// Some face belongs to the family.
pub open spec fn has_family(fonts: Seq<FontEntry>, fam: Seq<char>) -> bool {
    exists|i: int| 0 <= i < fonts.len() && #[trigger] fonts[i].family@ == fam
}

/// Some face of the family has this weight.
pub open spec fn family_has_weight(fonts: Seq<FontEntry>, fam: Seq<char>, w: u16) -> bool {
    exists|i: int| 0 <= i < fonts.len() && #[trigger] fonts[i].family@ == fam && fonts[i].weight == w
}

/// Some face of the family is italic.
pub open spec fn family_has_italic(fonts: Seq<FontEntry>, fam: Seq<char>) -> bool {
    exists|i: int| 0 <= i < fonts.len() && #[trigger] fonts[i].family@ == fam && fonts[i].italic
}

/// Some bitmap face of the family offers this pixel height.
pub open spec fn family_has_size(fonts: Seq<FontEntry>, fam: Seq<char>, s: i32) -> bool {
    exists|i: int| 0 <= i < fonts.len() && #[trigger] fonts[i].family@ == fam && fonts[i].is_bitmap
        && fonts[i].available_sizes@.contains(s)
}

/// `info` summarizes the family: its weights and bitmap sizes, each ascending
/// without repeats, and whether it has an italic face.
pub open spec fn family_info_ok(info: FontInfo, fonts: Seq<FontEntry>, fam: Seq<char>) -> bool {
    &&& info.family@ == fam
    &&& increasing_u16(info.weights@)
    &&& forall|w: u16| info.weights@.contains(w) <==> family_has_weight(fonts, fam, w)
    &&& info.has_italic == family_has_italic(fonts, fam)
    &&& increasing_i32(info.available_sizes@)
    &&& forall|s: i32| info.available_sizes@.contains(s) <==> family_has_size(fonts, fam, s)
}

/// The favourites that are installed, in the configured order.
pub open spec fn installed_favourites(favs: Seq<String>, fonts: Seq<FontEntry>) -> Seq<Seq<char>>
    decreases favs.len(),
{
    if favs.len() == 0 {
        Seq::<Seq<char>>::empty()
    } else {
        installed_favourites(favs.drop_last(), fonts) + if has_family(fonts, favs.last()@) {
            seq![favs.last()@]
        } else {
            Seq::<Seq<char>>::empty()
        }
    }
}

/// The grouping the store offers for the given faces and favourites.
pub open spec fn groups_ok(groups: FontGroups, fonts: Seq<FontEntry>, favs: Seq<String>, load_system_fonts: bool) -> bool {
    let installed = installed_favourites(favs, fonts);
    let sys = groups.system@;
    &&& groups.favourites@.len() == installed.len()
    &&& forall|k: int| 0 <= k < installed.len() ==> family_info_ok(
        #[trigger] groups.favourites@[k],
        fonts,
        installed[k],
    )
    &&& !load_system_fonts ==> sys.len() == 0
    &&& load_system_fonts ==> {
        &&& forall|i: int, j: int| 0 <= i < j < sys.len() ==> crate::order::name_lt(
            #[trigger] sys[i].family@,
            #[trigger] sys[j].family@,
        )
        &&& forall|k: int| 0 <= k < sys.len() ==> family_info_ok(#[trigger] sys[k], fonts, sys[k].family@)
        &&& forall|fam: Seq<char>| (exists|k: int| 0 <= k < sys.len() && #[trigger] sys[k].family@ == fam) <==> (
        has_family(fonts, fam) && !has_name(favs, fam))
    }
}

proof fn lemma_installed_take(favs: Seq<String>, fonts: Seq<FontEntry>, i: int)
    requires
        0 <= i < favs.len(),
    ensures
        installed_favourites(favs.take(i + 1), fonts) == installed_favourites(favs.take(i), fonts) + if has_family(
            fonts,
            favs[i]@,
        ) {
            seq![favs[i]@]
        } else {
            Seq::<Seq<char>>::empty()
        },
{
    assert(favs.take(i + 1).drop_last() =~= favs.take(i));
}

proof fn lemma_family_push(pre: Seq<FontEntry>, f: FontEntry, fam: Seq<char>)
    ensures
        forall|w: u16| #[trigger] family_has_weight(pre.push(f), fam, w) <==> (family_has_weight(pre, fam, w) || (
        f.family@ == fam && f.weight == w)),
        family_has_italic(pre.push(f), fam) <==> (family_has_italic(pre, fam) || (f.family@ == fam && f.italic)),
        forall|s: i32| #[trigger] family_has_size(pre.push(f), fam, s) <==> (family_has_size(pre, fam, s) || (f.family@
            == fam && f.is_bitmap && f.available_sizes@.contains(s))),
{
    let post = pre.push(f);
    assert forall|w: u16| #[trigger] family_has_weight(post, fam, w) <==> (family_has_weight(pre, fam, w) || (
    f.family@ == fam && f.weight == w)) by {
        if family_has_weight(post, fam, w) {
            let j = choose|j: int| 0 <= j < post.len() && #[trigger] post[j].family@ == fam && post[j].weight == w;
            if j < pre.len() {
                assert(pre[j] == post[j]);
            }
        }
        if family_has_weight(pre, fam, w) {
            let j = choose|j: int| 0 <= j < pre.len() && #[trigger] pre[j].family@ == fam && pre[j].weight == w;
            assert(post[j] == pre[j]);
        }
        if f.family@ == fam && f.weight == w {
            assert(post[pre.len() as int] == f);
        }
    }
    if family_has_italic(post, fam) {
        let j = choose|j: int| 0 <= j < post.len() && #[trigger] post[j].family@ == fam && post[j].italic;
        if j < pre.len() {
            assert(pre[j] == post[j]);
        }
    }
    if family_has_italic(pre, fam) {
        let j = choose|j: int| 0 <= j < pre.len() && #[trigger] pre[j].family@ == fam && pre[j].italic;
        assert(post[j] == pre[j]);
    }
    if f.family@ == fam && f.italic {
        assert(post[pre.len() as int] == f);
    }
    assert forall|s: i32| #[trigger] family_has_size(post, fam, s) <==> (family_has_size(pre, fam, s) || (f.family@
        == fam && f.is_bitmap && f.available_sizes@.contains(s))) by {
        if family_has_size(post, fam, s) {
            let j = choose|j: int| 0 <= j < post.len() && #[trigger] post[j].family@ == fam && post[j].is_bitmap
                && post[j].available_sizes@.contains(s);
            if j < pre.len() {
                assert(pre[j] == post[j]);
            }
        }
        if family_has_size(pre, fam, s) {
            let j = choose|j: int| 0 <= j < pre.len() && #[trigger] pre[j].family@ == fam && pre[j].is_bitmap
                && pre[j].available_sizes@.contains(s);
            assert(post[j] == pre[j]);
        }
        if f.family@ == fam && f.is_bitmap && f.available_sizes@.contains(s) {
            assert(post[pre.len() as int] == f);
        }
    }
}

/// Whether some face belongs to the family.
fn font_has_family(fonts: &Vec<FontEntry>, fam: &String) -> (b: bool)
    ensures
        b == has_family(fonts@, fam@),
{
    for i in 0..fonts.len()
        invariant
            forall|k: int| 0 <= k < i ==> #[trigger] fonts@[k].family@ != fam@,
    {
        if fonts[i].family == *fam {
            return true;
        }
    }
    false
}

/// Whether the name is in the list.
fn list_has_name(names: &Vec<String>, name: &String) -> (b: bool)
    ensures
        b == has_name(names@, name@),
{
    for i in 0..names.len()
        invariant
            forall|k: int| 0 <= k < i ==> #[trigger] names@[k]@ != name@,
    {
        if names[i] == *name {
            return true;
        }
    }
    false
}

/// Summarizes one family over all faces.
fn family_info(fonts: &Vec<FontEntry>, fam: &String) -> (info: FontInfo)
    ensures
        family_info_ok(info, fonts@, fam@),
{
    let mut weights: Vec<u16> = Vec::new();
    let mut has_italic = false;
    let mut sizes: Vec<i32> = Vec::new();
    for i in 0..fonts.len()
        invariant
            increasing_u16(weights@),
            increasing_i32(sizes@),
            forall|w: u16| weights@.contains(w) <==> family_has_weight(fonts@.take(i as int), fam@, w),
            has_italic == family_has_italic(fonts@.take(i as int), fam@),
            forall|s: i32| sizes@.contains(s) <==> family_has_size(fonts@.take(i as int), fam@, s),
    {
        let f = &fonts[i];
        let ghost pre = fonts@.take(i as int);
        let ghost post = fonts@.take(i + 1);
        assert(post =~= pre.push(*f));
        proof {
            lemma_family_push(pre, *f, fam@);
        }
        if f.family == *fam {
            insert_u16(&mut weights, f.weight);
            if f.italic {
                has_italic = true;
            }
            if f.is_bitmap {
                let mut k: usize = 0;
                while k < f.available_sizes.len()
                    invariant
                        k <= f.available_sizes@.len(),
                        increasing_i32(sizes@),
                        f.family@ == fam@,
                        f.is_bitmap,
                        forall|s: i32| sizes@.contains(s) <==> (family_has_size(pre, fam@, s)
                            || f.available_sizes@.take(k as int).contains(s)),
                    decreases f.available_sizes@.len() - k,
                {
                    let ghost before = sizes@;
                    insert_i32(&mut sizes, f.available_sizes[k]);
                    proof {
                        let t0 = f.available_sizes@.take(k as int);
                        let t1 = f.available_sizes@.take(k + 1);
                        assert(t1 =~= t0.push(f.available_sizes@[k as int]));
                        assert forall|s: i32| t1.contains(s) <==> (t0.contains(s) || s == f.available_sizes@[k as int]) by {
                            if t1.contains(s) {
                                let m = choose|m: int| 0 <= m < t1.len() && t1[m] == s;
                                if m < k {
                                    assert(t0[m] == s);
                                }
                            }
                            if t0.contains(s) {
                                let m = choose|m: int| 0 <= m < t0.len() && t0[m] == s;
                                assert(t1[m] == s);
                            }
                            if s == f.available_sizes@[k as int] {
                                assert(t1[k as int] == s);
                            }
                        }
                    }
                    k = k + 1;
                }
                proof {
                    assert(f.available_sizes@.take(k as int) =~= f.available_sizes@);
                }
            }
        }
    }
    proof {
        assert(fonts@.take(fonts@.len() as int) =~= fonts@);
    }
    FontInfo { family: fam.clone(), weights, has_italic, available_sizes: sizes }
}

/// Every family that is not a favourite, in name order.
fn system_families(fonts: &Vec<FontEntry>, favourites: &Vec<String>) -> (system: Vec<FontInfo>)
    ensures
        forall|i: int, j: int| 0 <= i < j < system@.len() ==> crate::order::name_lt(
            #[trigger] system@[i].family@,
            #[trigger] system@[j].family@,
        ),
        forall|k: int| 0 <= k < system@.len() ==> family_info_ok(#[trigger] system@[k], fonts@, system@[k].family@),
        forall|fam: Seq<char>| (exists|k: int| 0 <= k < system@.len() && #[trigger] system@[k].family@ == fam) <==> (
        has_family(fonts@, fam) && !has_name(favourites@, fam)),
{
    let mut system: Vec<FontInfo> = Vec::new();
        let mut families: Vec<String> = Vec::new();
        for i in 0..fonts.len()
            invariant
                names_increasing(families@),
                forall|fam: Seq<char>| has_name(families@, fam) <==> has_family(fonts@.take(i as int), fam),
        {
            insert_name(&mut families, &fonts[i].family);
            proof {
                let pre = fonts@.take(i as int);
                let post = fonts@.take(i + 1);
                assert(post =~= pre.push(fonts@[i as int]));
                assert forall|fam: Seq<char>| has_family(post, fam) <==> (has_family(pre, fam)
                    || fam == fonts@[i as int].family@) by {
                    if has_family(post, fam) {
                        let j = choose|j: int| 0 <= j < post.len() && #[trigger] post[j].family@ == fam;
                        if j < i {
                            assert(pre[j] == post[j]);
                        }
                    }
                    if has_family(pre, fam) {
                        let j = choose|j: int| 0 <= j < pre.len() && #[trigger] pre[j].family@ == fam;
                        assert(post[j] == pre[j]);
                    }
                    if fam == fonts@[i as int].family@ {
                        assert(post[i as int].family@ == fam);
                    }
                }
            }
        }
        proof {
            assert(fonts@.take(fonts@.len() as int) =~= fonts@);
        }
        let nf = families.len();
        let mut j: usize = 0;
        while j < nf
            invariant
                j <= nf,
                nf == families@.len(),
                names_increasing(families@),
                forall|fam: Seq<char>| has_name(families@, fam) <==> has_family(fonts@, fam),
                forall|a: int, b: int| 0 <= a < b < system@.len() ==> crate::order::name_lt(
                    #[trigger] system@[a].family@,
                    #[trigger] system@[b].family@,
                ),
                forall|k: int| 0 <= k < system@.len() ==> family_info_ok(#[trigger] system@[k], fonts@, system@[k].family@),
                forall|k: int| #![trigger system@[k]] 0 <= k < system@.len() ==> exists|m: int| 0 <= m < j && #[trigger] families@[m]@ == system@[k].family@,
                forall|fam: Seq<char>| (exists|k: int| 0 <= k < system@.len() && #[trigger] system@[k].family@ == fam) <==> (
                (exists|m: int| 0 <= m < j && #[trigger] families@[m]@ == fam) && !has_name(favourites@, fam)),
            decreases nf - j,
        {
            let ghost old_sys = system@;
            let is_fav = list_has_name(favourites, &families[j]);
            if !is_fav {
                let info = family_info(fonts, &families[j]);
                proof {
                    assert forall|k: int| 0 <= k < system@.len() implies crate::order::name_lt(
                        #[trigger] system@[k].family@,
                        info.family@,
                    ) by {
                        let m = choose|m: int| 0 <= m < j && #[trigger] families@[m]@ == system@[k].family@;
                        assert(crate::order::name_lt(families@[m]@, families@[j as int]@));
                    }
                }
                system.push(info);
            }
            proof {
                let jj = j as int;
                if !is_fav {
                    assert(system@ == old_sys.push(system@[old_sys.len() as int]));
                    assert(system@[old_sys.len() as int].family@ == families@[jj]@);
                } else {
                    assert(system@ == old_sys);
                }
                assert forall|k: int| #![trigger system@[k]] 0 <= k < system@.len() implies exists|m: int| 0 <= m < j + 1 && #[trigger] families@[m]@ == system@[k].family@ by {
                    if k < old_sys.len() {
                        assert(system@[k] == old_sys[k]);
                        let m = choose|m: int| 0 <= m < j && #[trigger] families@[m]@ == old_sys[k].family@;
                        assert(families@[m]@ == system@[k].family@);
                    } else {
                        assert(families@[jj]@ == system@[k].family@);
                    }
                }
                assert forall|fam: Seq<char>| (exists|k: int| 0 <= k < system@.len() && #[trigger] system@[k].family@ == fam) <==> (
                (exists|m: int| 0 <= m < j + 1 && #[trigger] families@[m]@ == fam) && !has_name(favourites@, fam)) by {
                    if exists|k: int| 0 <= k < system@.len() && #[trigger] system@[k].family@ == fam {
                        let k = choose|k: int| 0 <= k < system@.len() && #[trigger] system@[k].family@ == fam;
                        if k < old_sys.len() {
                            assert(system@[k] == old_sys[k]);
                            assert(exists|k2: int| 0 <= k2 < old_sys.len() && #[trigger] old_sys[k2].family@ == fam);
                            let m = choose|m: int| 0 <= m < j && #[trigger] families@[m]@ == fam;
                            assert(families@[m]@ == fam);
                        } else {
                            assert(families@[jj]@ == fam);
                        }
                    }
                    if (exists|m: int| 0 <= m < j + 1 && #[trigger] families@[m]@ == fam) && !has_name(favourites@, fam) {
                        let m = choose|m: int| 0 <= m < j + 1 && #[trigger] families@[m]@ == fam;
                        if m < jj {
                            assert(exists|m2: int| 0 <= m2 < j && #[trigger] families@[m2]@ == fam);
                            let k = choose|k: int| 0 <= k < old_sys.len() && #[trigger] old_sys[k].family@ == fam;
                            assert(system@[k] == old_sys[k]);
                        } else {
                            assert(system@[old_sys.len() as int].family@ == fam);
                        }
                    }
                }
            }
            j = j + 1;
        }
        proof {
            assert forall|fam: Seq<char>| (exists|k: int| 0 <= k < system@.len() && #[trigger] system@[k].family@ == fam) <==> (
            has_family(fonts@, fam) && !has_name(favourites@, fam)) by {
                if has_name(families@, fam) {
                    let m = choose|m: int| 0 <= m < families@.len() && #[trigger] families@[m]@ == fam;
                }
            }
            let sys = system@;
            assert(forall|i: int, j: int| 0 <= i < j < sys.len() ==> crate::order::name_lt(
                #[trigger] sys[i].family@,
                #[trigger] sys[j].family@,
            ));
            assert(forall|k: int| 0 <= k < sys.len() ==> family_info_ok(#[trigger] sys[k], fonts@, sys[k].family@));
            assert(forall|fam: Seq<char>| (exists|k: int| 0 <= k < sys.len() && #[trigger] sys[k].family@ == fam) <==> (
            has_family(fonts@, fam) && !has_name(favourites@, fam)));
        }
    system
}

impl FontStore {
    /// The faces, in load order.
    pub closed spec fn fonts_spec(&self) -> Seq<FontEntry> {
        self.fonts@
    }

    /// The families offered.
    pub closed spec fn groups_spec(&self) -> FontGroups {
        self.groups
    }

    /// Groups loaded faces into families: the installed favourites in their
    /// configured order, then (when system fonts are loaded) every other family
    /// in name order.
    pub fn from_fonts(fonts: Vec<FontEntry>, favourites: &Vec<String>, load_system_fonts: bool) -> (store: FontStore)
        ensures
            store.fonts_spec() == fonts@,
            groups_ok(store.groups_spec(), fonts@, favourites@, load_system_fonts),
    {
        let mut favourites_list: Vec<FontInfo> = Vec::new();
        for i in 0..favourites.len()
            invariant
                favourites_list@.len() == installed_favourites(favourites@.take(i as int), fonts@).len(),
                forall|k: int| 0 <= k < favourites_list@.len() ==> family_info_ok(
                    #[trigger] favourites_list@[k],
                    fonts@,
                    installed_favourites(favourites@.take(i as int), fonts@)[k],
                ),
        {
            proof {
                lemma_installed_take(favourites@, fonts@, i as int);
            }
            if font_has_family(&fonts, &favourites[i]) {
                let info = family_info(&fonts, &favourites[i]);
                favourites_list.push(info);
            }
        }
        proof {
            assert(favourites@.take(favourites@.len() as int) =~= favourites@);
        }

        let system: Vec<FontInfo> = if load_system_fonts {
            system_families(&fonts, favourites)
        } else {
            Vec::new()
        };
        let groups = FontGroups { favourites: favourites_list, system };
        let store = FontStore { fonts, groups };
        assert(store.groups_spec() == groups);
        store
    }

    /// The families offered to the user.
    pub fn groups(&self) -> (g: &FontGroups)
        ensures
            *g == self.groups_spec(),
    {
        &self.groups
    }

    /// The loaded faces.
    pub fn fonts(&self) -> (f: &Vec<FontEntry>)
        ensures
            f@ == self.fonts_spec(),
    {
        &self.fonts
    }
}

/// The face has the requested family, weight and style.
pub open spec fn exact_match(f: FontEntry, family: Seq<char>, weight: u16, italic: bool) -> bool {
    f.family@ == family && f.weight == weight && f.italic == italic
}

/// The face is a bitmap face with a strike of the requested pixel height.
pub open spec fn has_strike(f: FontEntry, size: u32) -> bool {
    f.is_bitmap && f.available_sizes@.contains(size as i32)
}

/// Distance between the face's weight and the requested one.
pub open spec fn weight_dist(f: FontEntry, weight: u16) -> int {
    if f.weight >= weight {
        f.weight - weight
    } else {
        weight - f.weight
    }
}

/// Weight distance, with a penalty of 1000 for the wrong style.
pub open spec fn style_dist(f: FontEntry, weight: u16, italic: bool) -> int {
    weight_dist(f, weight) + if f.italic != italic {
        1000int
    } else {
        0
    }
}

/// Face `i` is the first with `exact_match` (and `has_strike` when `strike`).
pub open spec fn first_exact(fonts: Seq<FontEntry>, i: int, family: Seq<char>, weight: u16, italic: bool, size: u32, strike: bool) -> bool {
    &&& 0 <= i < fonts.len()
    &&& exact_match(fonts[i], family, weight, italic) && (strike ==> has_strike(fonts[i], size))
    &&& forall|j: int| 0 <= j < i ==> !(exact_match(#[trigger] fonts[j], family, weight, italic) && (strike
        ==> has_strike(fonts[j], size)))
}

/// Face `i` is, among faces of the family (and of the style, when `same_style`),
/// the first one at the smallest distance (`weight_dist`, or `style_dist` otherwise).
pub open spec fn first_closest(fonts: Seq<FontEntry>, i: int, family: Seq<char>, weight: u16, italic: bool, same_style: bool) -> bool {
    let ok = |f: FontEntry| f.family@ == family && (same_style ==> f.italic == italic);
    let key = |f: FontEntry| if same_style { weight_dist(f, weight) } else { style_dist(f, weight, italic) };
    &&& 0 <= i < fonts.len()
    &&& ok(fonts[i])
    &&& forall|j: int| 0 <= j < fonts.len() && ok(#[trigger] fonts[j]) ==> key(fonts[i]) <= key(fonts[j])
    &&& forall|j: int| 0 <= j < i && ok(#[trigger] fonts[j]) ==> key(fonts[j]) > key(fonts[i])
}

/// The face chosen for a request: an exact match of family, weight and style
/// (preferring the first with a strike of the requested size, else the first);
/// failing that the closest weight in the family and style; failing that the
/// closest weight in the family, the wrong style costing 1000.
pub open spec fn is_font_choice(fonts: Seq<FontEntry>, r: Option<int>, family: Seq<char>, weight: u16, italic: bool, size: u32) -> bool {
    let any_exact = exists|i: int| 0 <= i < fonts.len() && exact_match(#[trigger] fonts[i], family, weight, italic);
    let any_strike = exists|i: int| 0 <= i < fonts.len() && exact_match(#[trigger] fonts[i], family, weight, italic)
        && has_strike(fonts[i], size);
    let any_style = exists|i: int| 0 <= i < fonts.len() && #[trigger] fonts[i].family@ == family && fonts[i].italic
        == italic;
    if any_exact {
        r matches Some(i) && first_exact(fonts, i, family, weight, italic, size, any_strike)
    } else if any_style {
        r matches Some(i) && first_closest(fonts, i, family, weight, italic, true)
    } else if has_family(fonts, family) {
        r matches Some(i) && first_closest(fonts, i, family, weight, italic, false)
    } else {
        r is None
    }
}

pub open spec fn opt_index(r: Option<usize>) -> Option<int> {
    match r {
        Some(i) => Some(i as int),
        None => None,
    }
}

fn vec_contains_i32(v: &Vec<i32>, x: i32) -> (b: bool)
    ensures
        b == v@.contains(x),
{
    for i in 0..v.len()
        invariant
            forall|k: int| 0 <= k < i ==> v@[k] != x,
    {
        if v[i] == x {
            return true;
        }
    }
    false
}

fn dist_u16(a: u16, b: u16) -> (d: u32)
    ensures
        d == if a >= b { a - b } else { b - a },
{
    if a >= b {
        (a - b) as u32
    } else {
        (b - a) as u32
    }
}

/// Index of the face to render a request with (see `is_font_choice`).
fn find_font_index(fonts: &Vec<FontEntry>, family: &str, weight: u16, italic: bool, target_size: u32) -> (r: Option<usize>)
    ensures
        is_font_choice(fonts@, opt_index(r), family@, weight, italic, target_size),
{
    let target = target_size as i32;
    let mut first_exact_idx: Option<usize> = None;
    let mut first_strike_idx: Option<usize> = None;
    let fam = family.to_string();
    for i in 0..fonts.len()
        invariant
            fam@ == family@,
            target == target_size as i32,
            first_exact_idx matches Some(k) ==> first_exact(fonts@, k as int, family@, weight, italic, target_size, false),
            first_exact_idx is None ==> forall|j: int| 0 <= j < i ==> !exact_match(#[trigger] fonts@[j], family@, weight, italic),
            first_strike_idx matches Some(k) ==> first_exact(fonts@, k as int, family@, weight, italic, target_size, true),
            first_strike_idx is None ==> forall|j: int| 0 <= j < i ==> !(exact_match(#[trigger] fonts@[j], family@, weight, italic)
                && has_strike(fonts@[j], target_size)),
            first_exact_idx matches Some(k) ==> k < i,
            first_strike_idx matches Some(k) ==> k < i,
    {
        let f = &fonts[i];
        if f.family == fam && f.weight == weight && f.italic == italic {
            if first_exact_idx.is_none() {
                first_exact_idx = Some(i);
            }
            if first_strike_idx.is_none() && f.is_bitmap && vec_contains_i32(&f.available_sizes, target) {
                first_strike_idx = Some(i);
            }
        }
    }
    if first_strike_idx.is_some() {
        return first_strike_idx;
    }
    if first_exact_idx.is_some() {
        return first_exact_idx;
    }
    let mut best: Option<usize> = None;
    let mut best_d: u32 = 0;
    for i in 0..fonts.len()
        invariant
            fam@ == family@,
            forall|j: int| 0 <= j < fonts@.len() ==> !exact_match(#[trigger] fonts@[j], family@, weight, italic),
            best is None ==> forall|j: int| 0 <= j < i ==> !(#[trigger] fonts@[j].family@ == family@ && fonts@[j].italic == italic),
            best matches Some(k) ==> {
                &&& k < i
                &&& fonts@[k as int].family@ == family@ && fonts@[k as int].italic == italic
                &&& best_d == weight_dist(fonts@[k as int], weight)
                &&& forall|j: int| 0 <= j < i && #[trigger] fonts@[j].family@ == family@ && fonts@[j].italic == italic ==> best_d <= weight_dist(fonts@[j], weight)
                &&& forall|j: int| 0 <= j < k && #[trigger] fonts@[j].family@ == family@ && fonts@[j].italic == italic ==> weight_dist(fonts@[j], weight) > best_d
            },
    {
        let f = &fonts[i];
        if f.family == fam && f.italic == italic {
            let d = dist_u16(f.weight, weight);
            if best.is_none() || d < best_d {
                best = Some(i);
                best_d = d;
            }
        }
    }
    if best.is_some() {
        return best;
    }
    let mut best2: Option<usize> = None;
    let mut best2_d: u32 = 0;
    for i in 0..fonts.len()
        invariant
            fam@ == family@,
            forall|j: int| 0 <= j < fonts@.len() ==> !exact_match(#[trigger] fonts@[j], family@, weight, italic),
            forall|j: int| 0 <= j < fonts@.len() ==> !(#[trigger] fonts@[j].family@ == family@ && fonts@[j].italic == italic),
            best2 is None ==> forall|j: int| 0 <= j < i ==> #[trigger] fonts@[j].family@ != family@,
            best2 matches Some(k) ==> {
                &&& k < i
                &&& fonts@[k as int].family@ == family@
                &&& best2_d == style_dist(fonts@[k as int], weight, italic)
                &&& forall|j: int| 0 <= j < i && #[trigger] fonts@[j].family@ == family@ ==> best2_d <= style_dist(fonts@[j], weight, italic)
                &&& forall|j: int| 0 <= j < k && #[trigger] fonts@[j].family@ == family@ ==> style_dist(fonts@[j], weight, italic) > best2_d
            },
    {
        let f = &fonts[i];
        if f.family == fam {
            let d = dist_u16(f.weight, weight) + if f.italic != italic { 1000 } else { 0 };
            if best2.is_none() || d < best2_d {
                best2 = Some(i);
                best2_d = d;
            }
        }
    }
    best2
}

/// The index of the strike to use for a target pixel height: the tallest strike
/// of positive height not above the target (the first such), or else the first
/// of the lowest strikes; 0 when there are none.
pub open spec fn is_strike_choice(heights: Seq<i32>, target: i32, r: int) -> bool {
    let fitting = |h: i32| 0 < h <= target;
    if exists|i: int| 0 <= i < heights.len() && fitting(#[trigger] heights[i]) {
        &&& 0 <= r < heights.len()
        &&& fitting(heights[r])
        &&& forall|j: int| 0 <= j < heights.len() && fitting(#[trigger] heights[j]) ==> heights[j] <= heights[r]
        &&& forall|j: int| 0 <= j < r && fitting(#[trigger] heights[j]) ==> heights[j] < heights[r]
    } else if heights.len() == 0 {
        r == 0
    } else {
        &&& 0 <= r < heights.len()
        &&& forall|j: int| 0 <= j < heights.len() ==> heights[r] <= #[trigger] heights[j]
        &&& forall|j: int| 0 <= j < r ==> #[trigger] heights[j] > heights[r]
    }
}

/// Chooses a bitmap strike for the target height (see `is_strike_choice`).
pub fn best_strike_index(heights: &Vec<i32>, target_height: i32) -> (r: i32)
    requires
        heights@.len() <= i32::MAX,
    ensures
        is_strike_choice(heights@, target_height, r as int),
{
    let n = heights.len();
    if n == 0 {
        return 0;
    }
    let mut best: i32 = 0;
    let mut best_h: i32 = 0;
    let mut smallest: i32 = 0;
    let mut smallest_h: i32 = i32::MAX;
    for i in 0..n
        invariant
            n == heights@.len(),
            n <= i32::MAX,
            0 <= best,
            0 <= smallest,
            best_h == 0 ==> forall|j: int| 0 <= j < i ==> !(0 < #[trigger] heights@[j] <= target_height),
            best_h > 0 ==> {
                &&& best < i
                &&& heights@[best as int] == best_h
                &&& 0 < best_h <= target_height
                &&& forall|j: int| 0 <= j < i && 0 < #[trigger] heights@[j] <= target_height ==> heights@[j] <= best_h
                &&& forall|j: int| 0 <= j < best && 0 < #[trigger] heights@[j] <= target_height ==> heights@[j] < best_h
            },
            best_h >= 0,
            i > 0 ==> {
                &&& smallest < i
                &&& heights@[smallest as int] == smallest_h
                &&& forall|j: int| 0 <= j < i ==> smallest_h <= #[trigger] heights@[j]
                &&& forall|j: int| 0 <= j < smallest ==> #[trigger] heights@[j] > smallest_h
            },
            i == 0 ==> smallest == 0 && smallest_h == i32::MAX,
    {
        let h = heights[i];
        if h <= target_height && h > best_h {
            best = i as i32;
            best_h = h;
        }
        if h < smallest_h {
            smallest = i as i32;
            smallest_h = h;
        } else if i == 0 {
            assert(h == i32::MAX);
        }
    }
    if best_h > 0 {
        best
    } else {
        smallest
    }
}

impl FontStore {
    /// The face chosen to render a request (see `is_font_choice`).
    pub fn find_font(&self, family: &str, weight: u16, italic: bool, target_size: u32) -> (r: Option<&FontEntry>)
        ensures
            match r {
                Some(e) => exists|i: int| #[trigger] is_font_choice(self.fonts_spec(), Some(i), family@, weight, italic, target_size)
                    && *e == self.fonts_spec()[i],
                None => is_font_choice(self.fonts_spec(), None, family@, weight, italic, target_size),
            },
    {
        match find_font_index(&self.fonts, family, weight, italic, target_size) {
            Some(i) => {
                let e = &self.fonts[i];
                assert(is_font_choice(self.fonts_spec(), Some(i as int), family@, weight, italic, target_size)
                    && *e == self.fonts_spec()[i as int]);
                Some(e)
            },
            None => {
                assert(is_font_choice(self.fonts@, None, family@, weight, italic, target_size));
                None
            },
        }
    }
}

// ---------------------------------------------------------------------------
// Text layout
// ---------------------------------------------------------------------------

/// A rasterized glyph: `rows` rows of `width` one-bit pixels, each row starting
/// `pitch` bytes after the previous one, most significant bit leftmost; placed
/// `left` pixels right of the pen and `top` pixels above the baseline; the pen
/// then advances by `advance` pixels.
#[derive(Debug, Clone)]
pub struct Glyph {
    pub left: i32,
    pub top: i32,
    pub width: u32,
    pub rows: u32,
    pub pitch: u32,
    pub buffer: Vec<u8>,
    pub advance: i32,
}

/// Vertical placement of the text block.
#[derive(Clone, Copy, Debug, PartialEq, Eq, Structural)]
pub enum VAlign {
    Top,
    Center,
    Bottom,
}

/// Horizontal placement of each line.
#[derive(Clone, Copy, Debug, PartialEq, Eq, Structural)]
pub enum HAlign {
    Left,
    Center,
    Right,
}

pub open spec fn spec_valign(s: Seq<char>) -> VAlign {
    if s == "top"@ {
        VAlign::Top
    } else if s == "bottom"@ {
        VAlign::Bottom
    } else {
        VAlign::Center
    }
}

pub open spec fn spec_halign(s: Seq<char>) -> HAlign {
    if s == "center"@ {
        HAlign::Center
    } else if s == "right"@ {
        HAlign::Right
    } else {
        HAlign::Left
    }
}

/// "top" and "bottom" select those placements; anything else centers.
pub fn parse_valign(s: &str) -> (v: VAlign)
    ensures
        v == spec_valign(s@),
{
    if str_eq(s, "top") {
        VAlign::Top
    } else if str_eq(s, "bottom") {
        VAlign::Bottom
    } else {
        VAlign::Center
    }
}

/// "center" and "right" select those placements; anything else is left-aligned.
pub fn parse_halign(s: &str) -> (h: HAlign)
    ensures
        h == spec_halign(s@),
{
    if str_eq(s, "center") {
        HAlign::Center
    } else if str_eq(s, "right") {
        HAlign::Right
    } else {
        HAlign::Left
    }
}

/// Half of `a`, rounded toward zero (as Rust's integer division does).
pub open spec fn half_toward_zero(a: int) -> int {
    if a >= 0 {
        a / 2
    } else {
        -((-a) / 2)
    }
}

/// The widest line, or 0.
pub open spec fn max_width(widths: Seq<i32>) -> int
    decreases widths.len(),
{
    if widths.len() == 0 {
        0
    } else {
        let m = max_width(widths.drop_last());
        if widths.last() > m {
            widths.last() as int
        } else {
            m
        }
    }
}

/// Pen position before glyph `g` of a line.
pub open spec fn pen(line: Seq<Glyph>, g: int) -> int
    decreases g,
{
    if g <= 0 {
        0
    } else {
        pen(line, g - 1) + line[g - 1].advance
    }
}

/// Pixel `(r, c)` of the glyph is set.
pub open spec fn glyph_bit(gl: Glyph, r: int, c: int) -> bool {
    &&& 0 <= r < gl.rows
    &&& 0 <= c < gl.width
    &&& r * gl.pitch + c / 8 < gl.buffer@.len()
    &&& bit_of(gl.buffer@[r * gl.pitch + c / 8], (7 - c % 8) as u8)
}

/// The glyph, with its bitmap's top-left corner at `(ox, oy)`, covers `(x, y)`.
pub open spec fn glyph_covers(gl: Glyph, ox: int, oy: int, x: int, y: int) -> bool {
    glyph_bit(gl, y - oy, x - ox)
}

/// Some glyph of a line starting at `x0` on baseline `base` covers `(x, y)`.
pub open spec fn line_covers(line: Seq<Glyph>, x0: int, base: int, x: int, y: int) -> bool {
    exists|g: int| 0 <= g < line.len() && #[trigger] glyph_covers(
        line[g],
        x0 + pen(line, g) + line[g].left,
        base - line[g].top,
        x,
        y,
    )
}

/// Height of the text block: the ink of one line plus `line_step` per further line.
pub open spec fn block_height(n: int, line_step: int, ascent: int, descent: int) -> int {
    if n == 1 {
        ascent + descent
    } else {
        (n - 1) * line_step + ascent + descent
    }
}

/// Baseline of the first line.
pub open spec fn first_baseline(valign: VAlign, height: int, total: int, ascent: int) -> int {
    match valign {
        VAlign::Top => ascent,
        VAlign::Bottom => height - total + ascent,
        VAlign::Center => half_toward_zero(height - total) + ascent,
    }
}

/// Horizontal start of a line of width `line_w` in a block of width `width`.
pub open spec fn line_x_offset(halign: HAlign, width: int, line_w: int) -> int {
    match halign {
        HAlign::Center => half_toward_zero(width - line_w),
        HAlign::Right => width - line_w,
        HAlign::Left => 0,
    }
}

/// Everything that places the text, after parsing.
pub struct TextMetrics {
    pub ascent: i32,
    pub descent: i32,
    pub line_step: i32,
    pub height: u32,
}

/// Some line of the text covers `(x, y)` (heights and alignment as laid out by `compose_text`).
pub open spec fn text_covers(
    lines: Seq<Vec<Glyph>>,
    widths: Seq<i32>,
    m: TextMetrics,
    valign: VAlign,
    halign: HAlign,
    x: int,
    y: int,
) -> bool {
    let width = max_width(widths);
    let hi = m.height as i32 as int;
    let total = block_height(lines.len() as int, m.line_step as int, m.ascent as int, m.descent as int);
    let first = first_baseline(valign, hi, total, m.ascent as int);
    exists|l: int| 0 <= l < lines.len() && #[trigger] line_covers(
        lines[l]@,
        line_x_offset(halign, width, widths[l] as int),
        first + l * m.line_step,
        x,
        y,
    )
}

proof fn lemma_max_width_bounds(widths: Seq<i32>)
    ensures
        0 <= max_width(widths) <= i32::MAX,
        forall|k: int| 0 <= k < widths.len() ==> #[trigger] widths[k] <= max_width(widths),
    decreases widths.len(),
{
    if widths.len() > 0 {
        lemma_max_width_bounds(widths.drop_last());
        assert forall|k: int| 0 <= k < widths.len() implies #[trigger] widths[k] <= max_width(widths) by {
            if k < widths.len() - 1 {
                assert(widths[k] == widths.drop_last()[k]);
            }
        }
    }
}

/// Stamps one glyph onto the bitmap with its top-left corner at `(ox, oy)`;
/// pixels outside the bitmap are dropped.
fn blit_glyph(bmp: &mut Bitmap1Bit, gl: &Glyph, ox: i128, oy: i128)
    requires
        old(bmp).wf(),
        old(bmp).width <= i32::MAX,
        -0x1_0000_0000_0000_0000_0000_0000_0000 <= ox <= 0x1_0000_0000_0000_0000_0000_0000_0000,
        -0x1_0000_0000_0000_0000_0000_0000_0000 <= oy <= 0x1_0000_0000_0000_0000_0000_0000_0000,
    ensures
        final(bmp).wf(),
        final(bmp).width == old(bmp).width,
        final(bmp).height == old(bmp).height,
        old(bmp).clean() ==> final(bmp).clean(),
        forall|x: int, y: int| #[trigger] final(bmp).pixel(x, y) == (old(bmp).pixel(x, y) || (0 <= x < old(bmp).width
            && 0 <= y < old(bmp).height && glyph_covers(*gl, ox as int, oy as int, x, y))),
{
    let ghost start = *bmp;
    let blen = gl.buffer.len();
    for row in 0..gl.rows
        invariant
            bmp.wf(),
            bmp.width == start.width,
            bmp.height == start.height,
            start.width <= i32::MAX,
            blen == gl.buffer@.len(),
            -0x1_0000_0000_0000_0000_0000_0000_0000 <= ox <= 0x1_0000_0000_0000_0000_0000_0000_0000,
            -0x1_0000_0000_0000_0000_0000_0000_0000 <= oy <= 0x1_0000_0000_0000_0000_0000_0000_0000,
            start.clean() ==> bmp.clean(),
            forall|x: int, y: int| #[trigger] bmp.pixel(x, y) == (start.pixel(x, y) || (0 <= x < start.width && 0 <= y
                < start.height && glyph_covers(*gl, ox as int, oy as int, x, y) && y - oy < row)),
    {
        for col in 0..gl.width
            invariant
                bmp.wf(),
                bmp.width == start.width,
                bmp.height == start.height,
                start.width <= i32::MAX,
                blen == gl.buffer@.len(),
                row < gl.rows,
                -0x1_0000_0000_0000_0000_0000_0000_0000 <= ox <= 0x1_0000_0000_0000_0000_0000_0000_0000,
                -0x1_0000_0000_0000_0000_0000_0000_0000 <= oy <= 0x1_0000_0000_0000_0000_0000_0000_0000,
                start.clean() ==> bmp.clean(),
                forall|x: int, y: int| #[trigger] bmp.pixel(x, y) == (start.pixel(x, y) || (0 <= x < start.width && 0 <= y
                    < start.height && glyph_covers(*gl, ox as int, oy as int, x, y) && (y - oy < row || (y - oy == row
                    && x - ox < col)))),
        {
            assert(row as u128 * gl.pitch as u128 <= 0xffff_ffff * 0xffff_ffffu128) by (nonlinear_arith)
                requires
                    row <= 0xffff_ffffu32,
                    gl.pitch <= 0xffff_ffffu32,
            ;
            let byte_idx: u128 = row as u128 * gl.pitch as u128 + (col / 8) as u128;
            let mut set = false;
            if byte_idx < blen as u128 {
                let b = gl.buffer[byte_idx as usize];
                let bit_pos: u8 = (7 - col % 8) as u8;
                if (b >> bit_pos) & 1 == 1 {
                    set = true;
                }
            }
            assert(set == glyph_bit(*gl, row as int, col as int));
            let sx: i128 = ox + col as i128;
            let sy: i128 = oy + row as i128;
            if set && sx >= 0 && sy >= 0 && sx < bmp.width as i128 && sy < bmp.height as i128 {
                bmp.set_pixel(sx as u32, sy as u32, true);
            }
            assert forall|x: int, y: int| #[trigger] bmp.pixel(x, y) == (start.pixel(x, y) || (0 <= x < start.width && 0
                <= y < start.height && glyph_covers(*gl, ox as int, oy as int, x, y) && (y - oy < row || (y - oy == row
                && x - ox < col + 1)))) by {
                if y - oy == row && x - ox == col {
                    assert(x == sx && y == sy);
                }
            }
        }
    }
}

/// What `compose_text` gives: nothing when no line has positive width; else a
/// well-formed bitmap as wide as the widest line and `m.height` tall whose set
/// pixels are exactly those the laid-out glyphs cover (`text_covers`).
pub open spec fn compose_ok(
    res: Option<Bitmap1Bit>,
    lines: Seq<Vec<Glyph>>,
    widths: Seq<i32>,
    m: TextMetrics,
    valign: VAlign,
    halign: HAlign,
) -> bool {
    &&& max_width(widths) <= 0 ==> res is None
    &&& max_width(widths) > 0 ==> (res matches Some(b) && b.wf() && b.clean() && b.width == max_width(widths) && b.height
        == m.height && forall|x: int, y: int| #[trigger] b.pixel(x, y) == (0 <= x < b.width && 0 <= y < b.height
        && text_covers(lines, widths, m, valign, halign, x, y)))
}

/// Lays out rasterized lines of text in a bitmap as wide as the widest line
/// (`widths`) and `metrics.height` tall; `None` when no line has positive width.
/// Lines are `line_step` apart; the block is aligned vertically by `valign` and
/// each line horizontally by `halign` within the block width.
pub fn compose_text(lines: &Vec<Vec<Glyph>>, widths: &Vec<i32>, metrics: &TextMetrics, valign: &str, halign: &str) -> (res:
    Option<Bitmap1Bit>)
    requires
        widths@.len() == lines@.len(),
        fits_bitmap(max_width(widths@), metrics.height as int),
    ensures
        compose_ok(res, lines@, widths@, *metrics, spec_valign(valign@), spec_halign(halign@)),
{
    let va = parse_valign(valign);
    let ha = parse_halign(halign);
    let mut max_w: i32 = 0;
    for i in 0..widths.len()
        invariant
            max_w == max_width(widths@.take(i as int)),
    {
        proof {
            assert(widths@.take(i + 1).drop_last() =~= widths@.take(i as int));
        }
        if widths[i] > max_w {
            max_w = widths[i];
        }
    }
    proof {
        assert(widths@.take(widths@.len() as int) =~= widths@);
        lemma_max_width_bounds(widths@);
    }
    if max_w <= 0 {
        return None;
    }
    let width = max_w as u32;
    let n = lines.len();
    let ascent = metrics.ascent as i128;
    let descent = metrics.descent as i128;
    let line_step = metrics.line_step as i128;
    let hi = metrics.height as i32 as i128;
    let ink_height = ascent + descent;
    proof {
        assert(-0x1_0000_0000_0000_0000_0000_0000 <= (n as int - 1) * line_step <= 0x1_0000_0000_0000_0000_0000_0000) by (nonlinear_arith)
            requires
                0 <= n <= 0xffff_ffff_ffff_ffff,
                -0x8000_0000 <= line_step <= 0x7fff_ffff,
        ;
    }
    let total: i128 = if n == 1 {
        ink_height
    } else {
        (n as i128 - 1) * line_step + ink_height
    };
    let diff = hi - total;
    let first: i128 = match va {
        VAlign::Top => ascent,
        VAlign::Bottom => hi - total + ascent,
        VAlign::Center => (if diff >= 0 {
            diff / 2
        } else {
            -((-diff) / 2)
        }) + ascent,
    };
    let mut bmp = Bitmap1Bit::new(width, metrics.height);
    let ghost glines = lines@;
    let ghost gwidths = widths@;
    let mut baseline: i128 = first;
    assert(0 * line_step == 0);
    for l in 0..n
        invariant
            n == glines.len(),
            glines == lines@,
            gwidths == widths@,
            gwidths.len() == n,
            bmp.wf(),
            bmp.clean(),
            bmp.width == width,
            width == max_width(gwidths),
            width <= i32::MAX,
            bmp.height == metrics.height,
            line_step == metrics.line_step,
            -0x8000_0000 <= line_step <= 0x7fff_ffff,
            first == first_baseline(
                spec_valign(valign@),
                metrics.height as i32 as int,
                block_height(n as int, metrics.line_step as int, metrics.ascent as int, metrics.descent as int),
                metrics.ascent as int,
            ),
            baseline == first + l * line_step,
            -0x10_0000_0000_0000_0000_0000_0000 <= first <= 0x10_0000_0000_0000_0000_0000_0000,
            va == spec_valign(valign@),
            ha == spec_halign(halign@),
            forall|x: int, y: int| #[trigger] bmp.pixel(x, y) == (0 <= x < width && 0 <= y < metrics.height && exists|k: int|
                0 <= k < l && #[trigger] line_covers(
                glines[k]@,
                line_x_offset(ha, width as int, gwidths[k] as int),
                first + k * line_step,
                x,
                y,
            )),
    {
        proof {
            assert(-0x1_0000_0000_0000_0000_0000_0000 <= l * line_step <= 0x1_0000_0000_0000_0000_0000_0000) by (nonlinear_arith)
                requires
                    0 <= l <= 0xffff_ffff_ffff_ffff,
                    -0x8000_0000 <= line_step <= 0x7fff_ffff,
            ;
        }
        let line = &lines[l];
        let line_w = widths[l] as i128;
        let wdiff = width as i128 - line_w;
        let x_offset: i128 = match ha {
            HAlign::Center => if wdiff >= 0 {
                wdiff / 2
            } else {
                -((-wdiff) / 2)
            },
            HAlign::Right => wdiff,
            HAlign::Left => 0,
        };
        let ghost before = bmp;
        let mut pen_x: i128 = 0;
        let ng = line.len();
        for g in 0..ng
            invariant
                ng == line@.len(),
                bmp.wf(),
                bmp.clean(),
                bmp.width == width,
                width <= i32::MAX,
                bmp.height == metrics.height,
                pen_x == pen(line@, g as int),
                -0x8000_0000 * g <= pen_x <= 0x8000_0000 * g,
                -0x2_0000_0000 <= x_offset <= 0x2_0000_0000,
                -0x20_0000_0000_0000_0000_0000_0000 <= baseline <= 0x20_0000_0000_0000_0000_0000_0000,
                forall|x: int, y: int| #[trigger] bmp.pixel(x, y) == (before.pixel(x, y) || (0 <= x < width && 0 <= y
                    < metrics.height && exists|h: int| 0 <= h < g && #[trigger] glyph_covers(
                    line@[h],
                    x_offset + pen(line@, h) + line@[h].left,
                    baseline - line@[h].top,
                    x,
                    y,
                ))),
        {
            let gl = &line[g];
            let ghost mid = bmp;
            proof {
                assert(0x8000_0000 * g <= 0x8000_0000 * 0xffff_ffff_ffff_ffffint) by (nonlinear_arith)
                    requires
                        g <= 0xffff_ffff_ffff_ffff,
                ;
            }
            blit_glyph(&mut bmp, gl, x_offset + pen_x + gl.left as i128, baseline - gl.top as i128);
            proof {
                assert forall|x: int, y: int| #[trigger] bmp.pixel(x, y) == (before.pixel(x, y) || (0 <= x < width && 0
                    <= y < metrics.height && exists|h: int| 0 <= h < g + 1 && #[trigger] glyph_covers(
                    line@[h],
                    x_offset + pen(line@, h) + line@[h].left,
                    baseline - line@[h].top,
                    x,
                    y,
                ))) by {
                    if exists|h: int| 0 <= h < g + 1 && #[trigger] glyph_covers(
                        line@[h],
                        x_offset + pen(line@, h) + line@[h].left,
                        baseline - line@[h].top,
                        x,
                        y,
                    ) {
                        let h = choose|h: int| 0 <= h < g + 1 && #[trigger] glyph_covers(
                            line@[h],
                            x_offset + pen(line@, h) + line@[h].left,
                            baseline - line@[h].top,
                            x,
                            y,
                        );
                        if h < g {
                            assert(mid.pixel(x, y) || !(0 <= x < width && 0 <= y < metrics.height));
                        }
                    }
                }
                assert(-0x8000_0000 * (g + 1) <= pen_x + gl.advance <= 0x8000_0000 * (g + 1)) by (nonlinear_arith)
                    requires
                        -0x8000_0000 * g <= pen_x <= 0x8000_0000 * g,
                        -0x8000_0000 <= gl.advance <= 0x7fff_ffff,
                ;
            }
            pen_x = pen_x + gl.advance as i128;
        }
        proof {
            assert forall|x: int, y: int| #[trigger] bmp.pixel(x, y) == (0 <= x < width && 0 <= y < metrics.height && exists|k: int|
                0 <= k < l + 1 && #[trigger] line_covers(
                glines[k]@,
                line_x_offset(ha, width as int, gwidths[k] as int),
                first + k * line_step,
                x,
                y,
            )) by {
                assert(x_offset == line_x_offset(ha, width as int, gwidths[l as int] as int));
                assert(baseline == first + l * line_step);
                if line_covers(glines[l as int]@, x_offset as int, baseline as int, x, y) {
                    let h = choose|h: int| 0 <= h < line@.len() && #[trigger] glyph_covers(
                        line@[h],
                        x_offset + pen(line@, h) + line@[h].left,
                        baseline - line@[h].top,
                        x,
                        y,
                    );
                }
            }
            assert(first + l * line_step + line_step == first + (l + 1) * line_step) by (nonlinear_arith);
        }
        baseline = baseline + line_step;
    }
    Some(bmp)
}

// ---------------------------------------------------------------------------
// Font files and faces
// ---------------------------------------------------------------------------

/// `c` is `p`, or, where `p` is a lowercase ASCII letter, its uppercase form.
pub open spec fn char_ci(c: char, p: char) -> bool {
    c == p || ('a' <= p <= 'z' && c as int == p as int - 32)
}

/// `a` spells `p` (written in lowercase) ignoring ASCII case. For the ASCII names
/// compared here this is what comparing after `str::to_lowercase` gives: no other
/// character lowercases to a letter of them followed by the next one.
pub open spec fn ci_eq(a: Seq<char>, p: Seq<char>) -> bool {
    &&& a.len() == p.len()
    &&& forall|i: int| 0 <= i < a.len() ==> char_ci(#[trigger] a[i], p[i])
}

/// `s` contains `p` (written in lowercase) ignoring ASCII case.
pub open spec fn ci_contains(s: Seq<char>, p: Seq<char>) -> bool {
    exists|i: int| 0 <= i && i + p.len() <= s.len() && #[trigger] ci_eq(s.subrange(i, i + p.len()), p)
}

fn char_ci_exec(c: char, p: char) -> (b: bool)
    ensures
        b == char_ci(c, p),
{
    c == p || ('a' <= p && p <= 'z' && (c as u32) + 32 == (p as u32))
}

/// Whether `s` from `start` on spells `p` ignoring ASCII case.
fn ci_match_at(s: &str, p: &str, start: usize) -> (b: bool)
    requires
        start + p@.len() <= s@.len(),
    ensures
        b == ci_eq(s@.subrange(start as int, start + p@.len()), p@),
{
    let m = p.unicode_len();
    let n = s.unicode_len();
    let ghost sub = s@.subrange(start as int, start + m);
    let mut i: usize = 0;
    while i < m
        invariant
            m == p@.len(),
            n == s@.len(),
            start + m <= s@.len(),
            sub == s@.subrange(start as int, start + m),
            i <= m,
            forall|k: int| 0 <= k < i ==> char_ci(#[trigger] sub[k], p@[k]),
        decreases m - i,
    {
        let c = s.get_char(start + i);
        if !char_ci_exec(c, p.get_char(i)) {
            assert(sub[i as int] == c);
            return false;
        }
        i = i + 1;
    }
    true
}

/// Whether `s` contains `p` ignoring ASCII case.
fn ci_contains_exec(s: &str, p: &str) -> (b: bool)
    ensures
        b == ci_contains(s@, p@),
{
    let n = s.unicode_len();
    let m = p.unicode_len();
    if m > n {
        return false;
    }
    let mut start: usize = 0;
    while start <= n - m
        invariant
            n == s@.len(),
            m == p@.len(),
            m <= n,
            start <= n - m + 1,
            forall|i: int| 0 <= i < start ==> !#[trigger] ci_eq(s@.subrange(i, i + m), p@),
        decreases n - m + 1 - start,
    {
        if ci_match_at(s, p, start) {
            return true;
        }
        start = start + 1;
    }
    false
}

/// The extensions of the font files that are scanned: ttf, otf, otb, ttc, bdf and
/// pcf, in any ASCII case.
pub open spec fn is_font_ext(ext: Seq<char>) -> bool {
    ci_eq(ext, "ttf"@) || ci_eq(ext, "otf"@) || ci_eq(ext, "otb"@) || ci_eq(ext, "ttc"@) || ci_eq(ext, "bdf"@)
        || ci_eq(ext, "pcf"@)
}

/// Whether a file with this extension is scanned for fonts.
pub fn is_font_extension(ext: &str) -> (b: bool)
    ensures
        b == is_font_ext(ext@),
{
    ci_match_whole(ext, "ttf") || ci_match_whole(ext, "otf") || ci_match_whole(ext, "otb")
        || ci_match_whole(ext, "ttc") || ci_match_whole(ext, "bdf") || ci_match_whole(ext, "pcf")
}

/// Whether `s` spells `p` ignoring ASCII case.
fn ci_match_whole(s: &str, p: &str) -> (b: bool)
    ensures
        b == ci_eq(s@, p@),
{
    if s.unicode_len() != p.unicode_len() {
        return false;
    }
    let r = ci_match_at(s, p, 0);
    assert(s@.subrange(0, p@.len() as int) =~= s@);
    r
}

/// A style name that marks an italic face: it contains "italic" or "oblique", in
/// any ASCII case.
pub open spec fn style_is_italic(style_name: Option<String>) -> bool {
    match style_name {
        Some(n) => ci_contains(n@, "italic"@) || ci_contains(n@, "oblique"@),
        None => false,
    }
}

/// Pixel height of a bitmap strike: its ppem (26.6 fixed point, whole pixels) when
/// that is at least 3, else its nominal height (some converters write a bogus ppem
/// for very small fonts).
pub fn strike_height(y_ppem: i64, height: i16) -> (h: i32)
    ensures
        h == if ((y_ppem >> 6u32) as i32) >= 3 {
            (y_ppem >> 6u32) as i32
        } else {
            height as i32
        },
{
    let ppem = (y_ppem >> 6u32) as i32;
    if ppem >= 3 {
        ppem
    } else {
        height as i32
    }
}

/// What a face found on disk is recorded as: nothing for a file whose extension is
/// not a font's; else its weight (700 when bold, 400 otherwise), whether it is
/// italic (by its style flag, or a style name that says so), whether it is a bitmap
/// face (fixed sizes and not scalable), and its strike heights (bitmap faces only).
pub fn classify_face(
    ext: &str,
    bold: bool,
    italic_flag: bool,
    style_name: Option<String>,
    fixed_sizes: bool,
    scalable: bool,
    heights: Vec<i32>,
) -> (r: Option<(u16, bool, bool, Vec<i32>)>)
    ensures
        !is_font_ext(ext@) ==> r is None,
        is_font_ext(ext@) ==> (r matches Some(t) && t.0 == (if bold { 700u16 } else { 400u16 }) && t.1 == (italic_flag
            || style_is_italic(style_name)) && t.2 == (fixed_sizes && !scalable) && t.3@ == if t.2 {
            heights@
        } else {
            Seq::<i32>::empty()
        }),
{
    if !is_font_extension(ext) {
        return None;
    }
    let weight: u16 = if bold { 700 } else { 400 };
    let italic = italic_flag || match &style_name {
        Some(n) => ci_contains_exec(n.as_str(), "italic") || ci_contains_exec(n.as_str(), "oblique"),
        None => false,
    };
    let is_bitmap = fixed_sizes && !scalable;
    let sizes = if is_bitmap { heights } else { Vec::new() };
    Some((weight, italic, is_bitmap, sizes))
}

/// The face is already listed: same family, weight, style, file and face index.
pub open spec fn same_face(a: FontEntry, b: FontEntry) -> bool {
    &&& a.family@ == b.family@
    &&& a.weight == b.weight
    &&& a.italic == b.italic
    &&& a.path@ == b.path@
    &&& a.face_index == b.face_index
}

/// Adds a face to the list unless the same face is listed already.
pub fn add_face(fonts: &mut Vec<FontEntry>, entry: FontEntry)
    ensures
        final(fonts)@ == if exists|i: int| 0 <= i < old(fonts)@.len() && #[trigger] same_face(old(fonts)@[i], entry) {
            old(fonts)@
        } else {
            old(fonts)@.push(entry)
        },
{
    let n = fonts.len();
    for i in 0..n
        invariant
            n == fonts@.len(),
            forall|k: int| 0 <= k < i ==> !#[trigger] same_face(fonts@[k], entry),
    {
        let f = &fonts[i];
        if f.family == entry.family && f.weight == entry.weight && f.italic == entry.italic && f.path == entry.path
            && f.face_index == entry.face_index {
            assert(same_face(fonts@[i as int], entry));
            return;
        }
    }
    fonts.push(entry);
}

/// Every weight the store offers is one that some face has: so when the faces are
/// classified by `classify_face` (weights 400 and 700 only), so are the families.
pub proof fn law_family_weights_from_faces(groups: FontGroups, fonts: Seq<FontEntry>, favs: Seq<String>, load_system_fonts: bool)
    requires
        groups_ok(groups, fonts, favs, load_system_fonts),
        forall|i: int| 0 <= i < fonts.len() ==> (#[trigger] fonts[i].weight == 400 || fonts[i].weight == 700),
    ensures
        forall|k: int, j: int| 0 <= k < groups.favourites@.len() && 0 <= j < groups.favourites@[k].weights@.len() ==> (
        #[trigger] groups.favourites@[k].weights@[j] == 400 || groups.favourites@[k].weights@[j] == 700),
        forall|k: int, j: int| 0 <= k < groups.system@.len() && 0 <= j < groups.system@[k].weights@.len() ==> (
        #[trigger] groups.system@[k].weights@[j] == 400 || groups.system@[k].weights@[j] == 700),
{
    let installed = installed_favourites(favs, fonts);
    assert forall|k: int, j: int| 0 <= k < groups.favourites@.len() && 0 <= j < groups.favourites@[k].weights@.len() implies (
    #[trigger] groups.favourites@[k].weights@[j] == 400 || groups.favourites@[k].weights@[j] == 700) by {
        let info = groups.favourites@[k];
        assert(family_info_ok(info, fonts, installed[k]));
        let w = info.weights@[j];
        assert(info.weights@.contains(w));
        assert(family_has_weight(fonts, installed[k], w));
    }
    assert forall|k: int, j: int| 0 <= k < groups.system@.len() && 0 <= j < groups.system@[k].weights@.len() implies (
    #[trigger] groups.system@[k].weights@[j] == 400 || groups.system@[k].weights@[j] == 700) by {
        let info = groups.system@[k];
        assert(family_info_ok(info, fonts, info.family@));
        let w = info.weights@[j];
        assert(info.weights@.contains(w));
        assert(family_has_weight(fonts, info.family@, w));
    }
}

/// Where a line of width `w` starts in a block `width` wide: at the left edge; so
/// that it ends at the right edge; or centered, with the space on either side
/// differing by at most one pixel.
pub proof fn law_line_offsets(width: int, w: int)
    requires
        0 <= w <= width,
    ensures
        line_x_offset(HAlign::Left, width, w) == 0,
        line_x_offset(HAlign::Right, width, w) + w == width,
        ({
            let left = line_x_offset(HAlign::Center, width, w);
            let right = width - (left + w);
            0 <= right - left <= 1
        }),
{
}

/// The first baseline of `n` lines stacked `line_step` apart, as a block
/// `(n - 1) * line_step + ascent + descent` tall: `ascent` at the top, the block
/// centered (halving toward zero), or its bottom on the label's bottom edge.
pub open spec fn stacked_first_baseline(valign: VAlign, n: int, m: TextMetrics) -> int {
    let hi = m.height as i32 as int;
    let block = (n - 1) * m.line_step + m.ascent + m.descent;
    match valign {
        VAlign::Top => m.ascent as int,
        VAlign::Center => half_toward_zero(hi - block) + m.ascent,
        VAlign::Bottom => hi - block + m.ascent,
    }
}

/// Where the lines of a text go: line `l` of `n` sits on baseline
/// `stacked_first_baseline + l * line_step`, so that at the bottom the last
/// baseline is `descent` above the label's bottom edge.
pub proof fn law_text_baselines(
    lines: Seq<Vec<Glyph>>,
    widths: Seq<i32>,
    m: TextMetrics,
    valign: VAlign,
    halign: HAlign,
    x: int,
    y: int,
)
    requires
        lines.len() >= 1,
    ensures
        valign == VAlign::Bottom ==> stacked_first_baseline(valign, lines.len() as int, m) + (lines.len() - 1) * m.line_step
            == m.height as i32 as int - m.descent,
        ({
            let block = (lines.len() - 1) * m.line_step + m.ascent + m.descent;
            let top_gap = stacked_first_baseline(valign, lines.len() as int, m) - m.ascent;
            let bottom_gap = m.height as i32 as int - (top_gap + block);
            valign == VAlign::Center && m.height as i32 as int >= block ==> 0 <= bottom_gap - top_gap <= 1
        }),
        text_covers(lines, widths, m, valign, halign, x, y) == exists|l: int| 0 <= l < lines.len() && #[trigger] line_covers(
            lines[l]@,
            line_x_offset(halign, max_width(widths), widths[l] as int),
            stacked_first_baseline(valign, lines.len() as int, m) + l * m.line_step,
            x,
            y,
        ),
{
    let n = lines.len() as int;
    let hi = m.height as i32 as int;
    let total = block_height(n, m.line_step as int, m.ascent as int, m.descent as int);
    if n == 1 {
        assert((n - 1) * m.line_step == 0) by (nonlinear_arith)
            requires
                n == 1,
        ;
    }
    assert(total == (n - 1) * m.line_step + m.ascent + m.descent);
    let first = first_baseline(valign, hi, total, m.ascent as int);
    assert(first == stacked_first_baseline(valign, n, m));
    let w = max_width(widths);
    if exists|l: int| 0 <= l < n && #[trigger] line_covers(
        lines[l]@,
        line_x_offset(halign, w, widths[l] as int),
        first + l * m.line_step,
        x,
        y,
    ) {
        let l = choose|l: int| 0 <= l < n && #[trigger] line_covers(
            lines[l]@,
            line_x_offset(halign, w, widths[l] as int),
            first + l * m.line_step,
            x,
            y,
        );
        assert(text_covers(lines, widths, m, valign, halign, x, y));
    }
    if text_covers(lines, widths, m, valign, halign, x, y) {
        let l = choose|l: int| 0 <= l < lines.len() && #[trigger] line_covers(
            lines[l]@,
            line_x_offset(halign, w, widths[l] as int),
            first + l * m.line_step,
            x,
            y,
        );
        assert(line_covers(lines[l]@, line_x_offset(halign, w, widths[l] as int), first + l * m.line_step, x, y));
    }
}

// ---------------------------------------------------------------------------
// Lines of text
// ---------------------------------------------------------------------------

/// The lines joined back with a newline between each two.
pub open spec fn join_lines(lines: Seq<Seq<char>>) -> Seq<char>
    decreases lines.len(),
{
    if lines.len() == 0 {
        Seq::<char>::empty()
    } else if lines.len() == 1 {
        lines[0]
    } else {
        join_lines(lines.drop_last()) + seq!['\n'] + lines.last()
    }
}

/// The characters of each of the string slices.
pub open spec fn str_views(lines: Seq<&str>) -> Seq<Seq<char>> {
    Seq::new(lines.len(), |i: int| lines[i]@)
}

/// The text cut at each newline, as `str::split('\n')` cuts it: at least one line,
/// no line holds a newline, and joined with newlines they give the text back.
pub fn split_lines<'a>(text: &'a str) -> (lines: Vec<&'a str>)
    ensures
        lines@.len() >= 1,
        join_lines(str_views(lines@)) == text@,
        forall|i: int| 0 <= i < lines@.len() ==> !(#[trigger] lines@[i])@.contains('\n'),
{
    let n = text.unicode_len();
    let mut lines: Vec<&'a str> = Vec::new();
    let mut start: usize = 0;
    let mut i: usize = 0;
    while i < n
        invariant
            n == text@.len(),
            start <= i <= n,
            lines@.len() == 0 ==> start == 0,
            lines@.len() > 0 ==> join_lines(str_views(lines@)) + seq!['\n'] == text@.take(start as int),
            forall|k: int| 0 <= k < lines@.len() ==> !(#[trigger] lines@[k])@.contains('\n'),
            forall|k: int| start <= k < i ==> text@[k] != '\n',
        decreases n - i,
    {
        if text.get_char(i) == '\n' {
            let line = text.substring_char(start, i);
            let ghost old_lines = lines@;
            lines.push(line);
            proof {
                assert(line@ =~= text@.subrange(start as int, i as int));
                assert(!line@.contains('\n')) by {
                    if line@.contains('\n') {
                        let k = choose|k: int| 0 <= k < line@.len() && line@[k] == '\n';
                        assert(text@[start + k] == '\n');
                    }
                }
                let v = str_views(lines@);
                assert(v.drop_last() =~= str_views(old_lines));
                assert(v.last() == line@);
                if old_lines.len() == 0 {
                    assert(join_lines(v) == line@);
                }
                assert(join_lines(v) + seq!['\n'] =~= text@.take(i + 1));
            }
            start = i + 1;
        }
        i = i + 1;
    }
    let line = text.substring_char(start, n);
    let ghost old_lines = lines@;
    lines.push(line);
    proof {
        assert(line@ =~= text@.subrange(start as int, n as int));
        assert(!line@.contains('\n')) by {
            if line@.contains('\n') {
                let k = choose|k: int| 0 <= k < line@.len() && line@[k] == '\n';
                assert(text@[start + k] == '\n');
            }
        }
        let v = str_views(lines@);
        assert(v.drop_last() =~= str_views(old_lines));
        assert(v.last() == line@);
        if old_lines.len() == 0 {
            assert(text@.subrange(0, n as int) =~= text@);
        } else {
            assert(text@ =~= text@.take(start as int) + line@);
        }
    }
    lines
}

/// The sum of a line's glyph advances.
pub open spec fn line_sum(advances: Seq<i32>) -> int
    decreases advances.len(),
{
    if advances.len() == 0 {
        0
    } else {
        line_sum(advances.drop_last()) + advances.last()
    }
}

/// Every running sum of the advances stays within `i32`, as the width adds up.
pub open spec fn sums_fit_i32(advances: Seq<i32>) -> bool {
    forall|k: int| 0 <= k <= advances.len() ==> i32::MIN <= #[trigger] line_sum(advances.take(k)) <= i32::MAX
}

/// The width of each line: the sum of its glyph advances.
pub open spec fn line_widths(advances: Seq<Vec<i32>>) -> Seq<i32> {
    Seq::new(advances.len(), |l: int| line_sum(advances[l]@) as i32)
}

/// The width of each line of text, as the sum of the advances of its loaded glyphs.
pub fn text_line_widths(advances: &Vec<Vec<i32>>) -> (widths: Vec<i32>)
    requires
        forall|l: int| 0 <= l < advances@.len() ==> sums_fit_i32(#[trigger] advances@[l]@),
    ensures
        widths@ == line_widths(advances@),
        forall|l: int| 0 <= l < widths@.len() ==> widths@[l] == line_sum(#[trigger] advances@[l]@),
{
    let mut widths: Vec<i32> = Vec::new();
    for l in 0..advances.len()
        invariant
            forall|j: int| 0 <= j < advances@.len() ==> sums_fit_i32(#[trigger] advances@[j]@),
            widths@.len() == l,
            forall|j: int| 0 <= j < l ==> widths@[j] == line_sum(#[trigger] advances@[j]@),
    {
        let line = &advances[l];
        let ghost a = line@;
        let mut w: i32 = 0;
        assert(a.take(0) =~= Seq::<i32>::empty());
        for k in 0..line.len()
            invariant
                a == line@,
                sums_fit_i32(a),
                w == line_sum(a.take(k as int)),
        {
            assert(a.take(k + 1).drop_last() =~= a.take(k as int));
            assert(i32::MIN <= line_sum(a.take(k + 1)) <= i32::MAX);
            w = w + line[k];
        }
        assert(a.take(a.len() as int) =~= a);
        assert(advances@[l as int]@ == a);
        widths.push(w);
    }
    assert(widths@ =~= line_widths(advances@));
    widths
}

/// Whether the bitmap for lines of these widths, `height` tall, fits the 32-bit
/// buffer arithmetic (what `compose_text` and `layout_text` require).
pub fn text_fits_bitmap(widths: &Vec<i32>, height: u32) -> (b: bool)
    ensures
        b == fits_bitmap(max_width(widths@), height as int),
{
    let mut max_w: i32 = 0;
    for i in 0..widths.len()
        invariant
            max_w == max_width(widths@.take(i as int)),
    {
        proof {
            assert(widths@.take(i + 1).drop_last() =~= widths@.take(i as int));
        }
        if widths[i] > max_w {
            max_w = widths[i];
        }
    }
    proof {
        assert(widths@.take(widths@.len() as int) =~= widths@);
        lemma_max_width_bounds(widths@);
    }
    let w = max_w as u64;
    assert((w + 7) / 8 * (height as u64) <= 0x1000_0000 * 0xffff_ffffu64) by (nonlinear_arith)
        requires
            w <= 0x7fff_ffff,
            height <= 0xffff_ffffu32,
    ;
    w + 7 <= u32::MAX as u64 && (w + 7) / 8 * (height as u64) <= u32::MAX as u64
}

/// Lays out a text from its rasterized lines and the advances of their loaded
/// glyphs: nothing for an empty text; else `compose_text` with each line as wide
/// as the sum of its advances.
pub fn layout_text(
    text: &str,
    lines: &Vec<Vec<Glyph>>,
    advances: &Vec<Vec<i32>>,
    metrics: &TextMetrics,
    valign: &str,
    halign: &str,
) -> (res: Option<Bitmap1Bit>)
    requires
        lines@.len() == advances@.len(),
        forall|l: int| 0 <= l < advances@.len() ==> sums_fit_i32(#[trigger] advances@[l]@),
        text@.len() > 0 ==> fits_bitmap(max_width(line_widths(advances@)), metrics.height as int),
    ensures
        text@.len() == 0 ==> res is None,
        text@.len() > 0 ==> compose_ok(res, lines@, line_widths(advances@), *metrics, spec_valign(valign@), spec_halign(
            halign@,
        )),
{
    if text.unicode_len() == 0 {
        return None;
    }
    let widths = text_line_widths(advances);
    compose_text(lines, &widths, metrics, valign, halign)
}

/// Two results that `compose_ok` allows for the same lines, widths, metrics and
/// alignment are the same bitmap.
proof fn lemma_compose_unique(
    r1: Option<Bitmap1Bit>,
    r2: Option<Bitmap1Bit>,
    lines: Seq<Vec<Glyph>>,
    widths: Seq<i32>,
    m: TextMetrics,
    valign: VAlign,
    halign: HAlign,
)
    requires
        compose_ok(r1, lines, widths, m, valign, halign),
        compose_ok(r2, lines, widths, m, valign, halign),
    ensures
        r1 is None <==> r2 is None,
        r1 matches Some(b1) ==> (r2 matches Some(b2) && b1.width == b2.width && b1.height == b2.height && b1.data@
            == b2.data@),
{
    if let (Some(b1), Some(b2)) = (r1, r2) {
        crate::engine::bitmap::lemma_same_pixels_same_data(b1, b2);
    }
}

/// A vertical alignment other than "top" and "bottom" lays text out as "center"
/// does, and a horizontal one other than "center" and "right" as "left" does.
pub proof fn law_alignment_defaults(
    lines: Seq<Vec<Glyph>>,
    widths: Seq<i32>,
    m: TextMetrics,
    valign: Seq<char>,
    halign: Seq<char>,
    r: Option<Bitmap1Bit>,
    r_default: Option<Bitmap1Bit>,
)
    requires
        valign != "top"@,
        valign != "bottom"@,
        halign != "center"@,
        halign != "right"@,
        compose_ok(r, lines, widths, m, spec_valign(valign), spec_halign(halign)),
        compose_ok(r_default, lines, widths, m, spec_valign("center"@), spec_halign("left"@)),
    ensures
        r is None <==> r_default is None,
        r matches Some(b1) ==> (r_default matches Some(b2) && b1.width == b2.width && b1.height == b2.height && b1.data@
            == b2.data@),
{
    reveal_strlit("center");
    reveal_strlit("left");
    reveal_strlit("top");
    reveal_strlit("bottom");
    reveal_strlit("right");
    assert("center"@.len() == 6 && "top"@.len() == 3 && "bottom"@.len() == 6);
    assert("center"@[0] == 'c' && "bottom"@[0] == 'b');
    assert("left"@.len() == 4 && "center"@.len() == 6 && "right"@.len() == 5);
    assert(spec_valign("center"@) == VAlign::Center);
    assert(spec_halign("left"@) == HAlign::Left);
    lemma_compose_unique(r, r_default, lines, widths, m, VAlign::Center, HAlign::Left);
}

/// A single line is laid out the same whatever the horizontal alignment and the
/// line step.
pub proof fn law_single_line(
    line: Vec<Glyph>,
    width: i32,
    m1: TextMetrics,
    m2: TextMetrics,
    valign: VAlign,
    halign1: HAlign,
    halign2: HAlign,
    r1: Option<Bitmap1Bit>,
    r2: Option<Bitmap1Bit>,
)
    requires
        m1.ascent == m2.ascent,
        m1.descent == m2.descent,
        m1.height == m2.height,
        compose_ok(r1, seq![line], seq![width], m1, valign, halign1),
        compose_ok(r2, seq![line], seq![width], m2, valign, halign2),
    ensures
        r1 is None <==> r2 is None,
        r1 matches Some(b1) ==> (r2 matches Some(b2) && b1.width == b2.width && b1.height == b2.height && b1.data@
            == b2.data@),
{
    let ws = seq![width];
    assert(ws.drop_last() =~= Seq::<i32>::empty());
    assert(max_width(ws.drop_last()) == 0);
    assert(max_width(ws) == if width > 0 { width as int } else { 0 });
    if let (Some(b1), Some(b2)) = (r1, r2) {
        assert(max_width(ws) == width);
        assert forall|x: int, y: int| #[trigger] b1.pixel(x, y) == b2.pixel(x, y) by {
            lemma_single_line_covers(line, width, m1, valign, halign1, x, y);
            lemma_single_line_covers(line, width, m2, valign, halign2, x, y);
        }
        crate::engine::bitmap::lemma_same_pixels_same_data(b1, b2);
    }
}

/// What a single line of positive width covers: its glyphs from the left edge, on
/// the first baseline.
proof fn lemma_single_line_covers(line: Vec<Glyph>, width: i32, m: TextMetrics, valign: VAlign, halign: HAlign, x: int, y: int)
    requires
        width > 0,
    ensures
        text_covers(seq![line], seq![width], m, valign, halign, x, y) == line_covers(
            line@,
            0,
            first_baseline(valign, m.height as i32 as int, m.ascent + m.descent, m.ascent as int),
            x,
            y,
        ),
{
    let lines = seq![line];
    let ws = seq![width];
    assert(ws.drop_last() =~= Seq::<i32>::empty());
    assert(max_width(ws.drop_last()) == 0);
    assert(max_width(ws) == width);
    let f = first_baseline(valign, m.height as i32 as int, m.ascent + m.descent, m.ascent as int);
    assert(block_height(lines.len() as int, m.line_step as int, m.ascent as int, m.descent as int) == m.ascent + m.descent);
    assert(line_x_offset(halign, max_width(ws), ws[0] as int) == 0);
    assert(f + 0 * m.line_step == f);
    if line_covers(line@, 0, f, x, y) {
        assert(line_covers(lines[0]@, line_x_offset(halign, max_width(ws), ws[0] as int), f + 0 * m.line_step, x, y));
    }
}

} // verus!
