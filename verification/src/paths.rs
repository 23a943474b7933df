//! Picking the image files out of a directory listing, in path order.
//!
//! A path is an image when the extension of its last segment, the part after the
//! last dot of a name that does not start with that dot, is `jpg`, `jpeg` or
//! `png` in any mix of upper and lower case. Paths are ordered character by
//! character, a path before every longer one that it begins.

use crate::text::chars_of;
use vstd::prelude::*;
use vstd::relations::{sorted_by, total_ordering};
use vstd::seq_lib::{lemma_sorted_unique, to_multiset_build, to_multiset_insert};

verus! {

/// The views of a list of strings.
pub open spec fn views(v: Seq<String>) -> Seq<Seq<char>> {
    v.map_values(|s: String| s@)
}

/// The position of the last `c` in `s`.
pub open spec fn last_index_of(s: Seq<char>, c: char) -> Option<int>
    decreases s.len(),
{
    if s.len() == 0 {
        None
    } else if s.last() == c {
        Some(s.len() - 1)
    } else {
        last_index_of(s.drop_last(), c)
    }
}

/// The last `/`-separated segment of a path.
pub open spec fn file_name(p: Seq<char>) -> Seq<char> {
    match last_index_of(p, '/') {
        Some(k) => p.subrange(k + 1, p.len() as int),
        None => p,
    }
}

/// What follows the last dot of the file name, unless that dot starts the name.
pub open spec fn extension(p: Seq<char>) -> Option<Seq<char>> {
    let name = file_name(p);
    match last_index_of(name, '.') {
        Some(k) => if k > 0 {
            Some(name.subrange(k + 1, name.len() as int))
        } else {
            None
        },
        None => None,
    }
}

/// `e` spells `lower`, each letter in lower or in upper case (`upper` spells it in upper case).
pub open spec fn spells_ignoring_case(e: Seq<char>, lower: Seq<char>, upper: Seq<char>) -> bool {
    &&& e.len() == lower.len()
    &&& forall|i: int| 0 <= i < e.len() ==> e[i] == lower[i] || e[i] == upper[i]
}

/// An extension of an image file that the tool reads.
pub open spec fn is_image_extension(e: Seq<char>) -> bool {
    ||| spells_ignoring_case(e, seq!['j', 'p', 'g'], seq!['J', 'P', 'G'])
    ||| spells_ignoring_case(e, seq!['j', 'p', 'e', 'g'], seq!['J', 'P', 'E', 'G'])
    ||| spells_ignoring_case(e, seq!['p', 'n', 'g'], seq!['P', 'N', 'G'])
}

/// The path names an image file.
pub open spec fn is_image_path(p: Seq<char>) -> bool {
    extension(p) matches Some(e) && is_image_extension(e)
}

/// The image paths among `paths`, in their order.
pub open spec fn image_paths(paths: Seq<Seq<char>>) -> Seq<Seq<char>>
    decreases paths.len(),
{
    if paths.len() == 0 {
        Seq::empty()
    } else if is_image_path(paths.last()) {
        image_paths(paths.drop_last()).push(paths.last())
    } else {
        image_paths(paths.drop_last())
    }
}

/// Character-by-character order of paths; a path comes before the longer ones it begins.
pub open spec fn chars_le(a: Seq<char>, b: Seq<char>) -> bool
    decreases a.len(),
{
    if a.len() == 0 {
        true
    } else if b.len() == 0 {
        false
    } else if a[0] != b[0] {
        (a[0] as int) < (b[0] as int)
    } else {
        chars_le(a.drop_first(), b.drop_first())
    }
}

/// `chars_le` as a value.
pub open spec fn path_order() -> spec_fn(Seq<char>, Seq<char>) -> bool {
    |a: Seq<char>, b: Seq<char>| chars_le(a, b)
}

proof fn lemma_chars_le_reflexive(a: Seq<char>)
    ensures
        chars_le(a, a),
    decreases a.len(),
{
    if a.len() > 0 {
        lemma_chars_le_reflexive(a.drop_first());
    }
}

proof fn lemma_chars_le_antisymmetric(a: Seq<char>, b: Seq<char>)
    requires
        chars_le(a, b),
        chars_le(b, a),
    ensures
        a == b,
    decreases a.len(),
{
    if a.len() > 0 && b.len() > 0 {
        lemma_chars_le_antisymmetric(a.drop_first(), b.drop_first());
        assert(a =~= seq![a[0]] + a.drop_first());
        assert(b =~= seq![b[0]] + b.drop_first());
    } else {
        assert(a =~= b);
    }
}

proof fn lemma_chars_le_transitive(a: Seq<char>, b: Seq<char>, c: Seq<char>)
    requires
        chars_le(a, b),
        chars_le(b, c),
    ensures
        chars_le(a, c),
    decreases a.len(),
{
    if a.len() > 0 && b.len() > 0 && c.len() > 0 {
        if a[0] == b[0] && b[0] == c[0] {
            lemma_chars_le_transitive(a.drop_first(), b.drop_first(), c.drop_first());
        }
    }
}

proof fn lemma_chars_le_connected(a: Seq<char>, b: Seq<char>)
    ensures
        chars_le(a, b) || chars_le(b, a),
    decreases a.len(),
{
    if a.len() > 0 && b.len() > 0 {
        if a[0] == b[0] {
            lemma_chars_le_connected(a.drop_first(), b.drop_first());
        } else {
        }
    }
}

/// The path order is a total order.
pub proof fn lemma_path_order_total()
    ensures
        total_ordering(path_order()),
{
    assert forall|a: Seq<char>| #[trigger] path_order()(a, a) by {
        lemma_chars_le_reflexive(a);
    }
    assert forall|a: Seq<char>, b: Seq<char>|
        #[trigger] path_order()(a, b) && #[trigger] path_order()(b, a) implies a == b by {
        lemma_chars_le_antisymmetric(a, b);
    }
    assert forall|a: Seq<char>, b: Seq<char>, c: Seq<char>|
        #[trigger] path_order()(a, b) && #[trigger] path_order()(b, c) implies path_order()(
        a,
        c,
    ) by {
        lemma_chars_le_transitive(a, b, c);
    }
    assert forall|a: Seq<char>, b: Seq<char>|
        #[trigger] path_order()(a, b) || #[trigger] path_order()(b, a) by {
        lemma_chars_le_connected(a, b);
    }
}

proof fn lemma_chars_le_from(a: Seq<char>, b: Seq<char>, i: int)
    requires
        0 <= i <= a.len(),
        i <= b.len(),
        forall|j: int| 0 <= j < i ==> a[j] == b[j],
    ensures
        chars_le(a, b) == chars_le(a.subrange(i, a.len() as int), b.subrange(i, b.len() as int)),
    decreases i,
{
    if i > 0 {
        lemma_chars_le_from(a.drop_first(), b.drop_first(), i - 1);
        assert(a.drop_first().subrange(i - 1, a.len() - 1) =~= a.subrange(i, a.len() as int));
        assert(b.drop_first().subrange(i - 1, b.len() - 1) =~= b.subrange(i, b.len() as int));
    } else {
        assert(a.subrange(0, a.len() as int) =~= a);
        assert(b.subrange(0, b.len() as int) =~= b);
    }
}

/// Whether `a` comes before `b`, or equals it, in the path order.
fn chars_le_exec(a: &Vec<char>, b: &Vec<char>) -> (r: bool)
    ensures
        r == chars_le(a@, b@),
{
    let mut i: usize = 0;
    while i < a.len() && i < b.len()
        invariant
            i <= a@.len(),
            i <= b@.len(),
            forall|j: int| 0 <= j < i ==> a@[j] == b@[j],
        decreases a@.len() - i,
    {
        if a[i] != b[i] {
            proof {
                lemma_chars_le_from(a@, b@, i as int);
                assert(a@.subrange(i as int, a@.len() as int)[0] == a@[i as int]);
                assert(b@.subrange(i as int, b@.len() as int)[0] == b@[i as int]);
            }
            return a[i] < b[i];
        }
        i = i + 1;
    }
    proof {
        lemma_chars_le_from(a@, b@, i as int);
    }
    i == a.len()
}

/// The position of the last `c` in `s`.
fn last_index_of_exec(s: &Vec<char>, c: char) -> (r: Option<usize>)
    ensures
        match r {
            Some(k) => last_index_of(s@, c) == Some(k as int) && k < s@.len(),
            None => last_index_of(s@, c) is None,
        },
{
    let mut found: Option<usize> = None;
    let mut i: usize = 0;
    while i < s.len()
        invariant
            i <= s@.len(),
            match found {
                Some(k) => last_index_of(s@.take(i as int), c) == Some(k as int) && k < i,
                None => last_index_of(s@.take(i as int), c) is None,
            },
        decreases s@.len() - i,
    {
        assert(s@.take(i + 1).drop_last() =~= s@.take(i as int));
        if s[i] == c {
            found = Some(i);
        }
        i = i + 1;
    }
    assert(s@.take(s@.len() as int) =~= s@);
    found
}

fn spells_ignoring_case_exec(e: &Vec<char>, lower: &[char], upper: &[char]) -> (r: bool)
    requires
        lower@.len() == upper@.len(),
    ensures
        r == spells_ignoring_case(e@, lower@, upper@),
{
    if e.len() != lower.len() {
        return false;
    }
    let mut i: usize = 0;
    while i < e.len()
        invariant
            e@.len() == lower@.len(),
            lower@.len() == upper@.len(),
            i <= e@.len(),
            forall|j: int| 0 <= j < i ==> e@[j] == lower@[j] || e@[j] == upper@[j],
        decreases e@.len() - i,
    {
        if e[i] != lower[i] && e[i] != upper[i] {
            return false;
        }
        i = i + 1;
    }
    true
}

/// Whether the path names an image file.
pub fn is_image_path_exec(p: &Vec<char>) -> (r: bool)
    ensures
        r == is_image_path(p@),
{
    let mut name: Vec<char> = Vec::new();
    let plen = p.len();
    let start: usize = match last_index_of_exec(p, '/') {
        Some(k) => k + 1,
        None => 0,
    };
    let mut i = start;
    while i < p.len()
        invariant
            start <= i <= p@.len(),
            name@ =~= p@.subrange(start as int, i as int),
        decreases p@.len() - i,
    {
        name.push(p[i]);
        i = i + 1;
    }
    assert(name@ =~= file_name(p@));
    match last_index_of_exec(&name, '.') {
        Some(k) => {
            if k == 0 {
                return false;
            }
            let mut ext: Vec<char> = Vec::new();
            let mut j = k + 1;
            while j < name.len()
                invariant
                    k + 1 <= j <= name@.len(),
                    ext@ =~= name@.subrange(k + 1, j as int),
                decreases name@.len() - j,
            {
                ext.push(name[j]);
                j = j + 1;
            }
            assert(extension(p@) == Some(ext@));
            spells_ignoring_case_exec(&ext, &['j', 'p', 'g'], &['J', 'P', 'G'])
                || spells_ignoring_case_exec(&ext, &['j', 'p', 'e', 'g'], &['J', 'P', 'E', 'G'])
                || spells_ignoring_case_exec(&ext, &['p', 'n', 'g'], &['P', 'N', 'G'])
        },
        None => false,
    }
}

proof fn lemma_image_paths_are_images(paths: Seq<Seq<char>>)
    ensures
        forall|i: int|
            0 <= i < image_paths(paths).len() ==> is_image_path(#[trigger] image_paths(paths)[i]),
    decreases paths.len(),
{
    if paths.len() > 0 {
        let prev = image_paths(paths.drop_last());
        lemma_image_paths_are_images(paths.drop_last());
        assert forall|i: int| 0 <= i < image_paths(paths).len() implies is_image_path(
            #[trigger] image_paths(paths)[i],
        ) by {
            if i < prev.len() {
                assert(image_paths(paths)[i] == prev[i]);
            }
        }
    }
}

/// What `select_images` gives is in path order, and every path in it names an image.
pub proof fn lemma_selected_images(paths: Seq<Seq<char>>)
    ensures
        sorted_by(image_paths(paths).sort_by(path_order()), path_order()),
        forall|p: Seq<char>|
            #[trigger] image_paths(paths).sort_by(path_order()).contains(p) ==> is_image_path(p),
{
    lemma_path_order_total();
    image_paths(paths).lemma_sort_by_ensures(path_order());
    lemma_image_paths_are_images(paths);
}

proof fn lemma_views_insert(v: Seq<String>, j: int, s: String)
    requires
        0 <= j <= v.len(),
    ensures
        views(v.insert(j, s)) == views(v).insert(j, s@),
{
    assert(views(v.insert(j, s)) =~= views(v).insert(j, s@));
}

/// The image files of a directory listing, sorted in path order.
pub fn select_images(paths: &Vec<String>) -> (r: Vec<String>)
    ensures
        views(r@) == image_paths(views(paths@)).sort_by(path_order()),
        sorted_by(views(r@), path_order()),
        forall|x: Seq<char>|
            #[trigger] views(r@).contains(x) == (views(paths@).contains(x) && names_image_file(x)),
{
    let mut out: Vec<String> = Vec::new();
    let n = paths.len();
    let mut i: usize = 0;
    proof {
        lemma_path_order_total();
        assert(views(paths@).take(0) =~= Seq::<Seq<char>>::empty());
        assert(views(out@) =~= Seq::<Seq<char>>::empty());
    }
    while i < n
        invariant
            n == paths@.len(),
            i <= n,
            total_ordering(path_order()),
            sorted_by(views(out@), path_order()),
            views(out@).to_multiset() == image_paths(views(paths@).take(i as int)).to_multiset(),
        decreases n - i,
    {
        let key = chars_of(paths[i].as_str());
        let ghost prefix = views(paths@).take(i as int);
        proof {
            assert(views(paths@).take(i + 1).drop_last() =~= prefix);
            assert(views(paths@).take(i + 1).last() == key@);
        }
        if is_image_path_exec(&key) {
            let ghost before = views(out@);
            let mut j: usize = 0;
            while j < out.len()
                invariant
                    j <= out@.len(),
                    before == views(out@),
                    forall|k: int| 0 <= k < j ==> chars_le(#[trigger] before[k], key@),
                ensures
                    j <= out@.len(),
                    forall|k: int| 0 <= k < j ==> chars_le(#[trigger] before[k], key@),
                    j < out@.len() ==> !chars_le(before[j as int], key@),
                decreases out@.len() - j,
            {
                let other = chars_of(out[j].as_str());
                if !chars_le_exec(&other, &key) {
                    break;
                }
                j = j + 1;
            }
            proof {
                assert forall|k: int| j <= k < before.len() implies chars_le(
                    key@,
                    #[trigger] before[k],
                ) by {
                    assert(path_order()(key@, before[j as int]) || path_order()(
                        before[j as int],
                        key@,
                    ));
                    if k > j {
                        assert(path_order()(before[j as int], before[k]));
                        assert(path_order()(key@, before[j as int]) && path_order()(
                            before[j as int],
                            before[k],
                        ));
                    }
                }
            }
            let ghost old_out = out@;
            out.insert(j, paths[i].clone());
            proof {
                lemma_views_insert(old_out, j as int, paths@[i as int]);
                let after = views(out@);
                assert(after == before.insert(j as int, key@));
                assert forall|a: int, b: int| 0 <= a < b < after.len() implies #[trigger] path_order()(
                    after[a],
                    after[b],
                ) by {
                    if b < j {
                    } else if b == j {
                    } else if a < j {
                        assert(path_order()(before[a], before[b - 1]));
                    } else if a == j {
                    } else {
                        assert(path_order()(before[a - 1], before[b - 1]));
                    }
                }
                to_multiset_insert(before, j as int, key@);
                to_multiset_build(image_paths(prefix), key@);
            }
        }
        i = i + 1;
    }
    proof {
        assert(views(paths@).take(n as int) =~= views(paths@));
        let expected = image_paths(views(paths@));
        expected.lemma_sort_by_ensures(path_order());
        lemma_sorted_unique(views(out@), expected.sort_by(path_order()), path_order());
        lemma_select_images_law(views(paths@), views(out@));
    }
    out
}

} // verus!

verus! {

/// `c` is the letter given in lower case as `lower` and in upper case as `upper`.
pub open spec fn is_letter(c: char, lower: char, upper: char) -> bool {
    c == lower || c == upper
}

/// `e` is `jpg`, `jpeg` or `png`, each letter in either case.
pub open spec fn is_image_suffix(e: Seq<char>) -> bool {
    ||| e.len() == 3 && is_letter(e[0], 'j', 'J') && is_letter(e[1], 'p', 'P') && is_letter(
        e[2],
        'g',
        'G',
    )
    ||| e.len() == 4 && is_letter(e[0], 'j', 'J') && is_letter(e[1], 'p', 'P') && is_letter(
        e[2],
        'e',
        'E',
    ) && is_letter(e[3], 'g', 'G')
    ||| e.len() == 3 && is_letter(e[0], 'p', 'P') && is_letter(e[1], 'n', 'N') && is_letter(
        e[2],
        'g',
        'G',
    )
}

/// `p` is `stem`, a dot and `ext`, where `ext` holds no dot and no slash, and `stem`
/// is not empty and does not end in a slash: `ext` is the extension of the file that
/// `p` names.
pub open spec fn has_extension(p: Seq<char>, stem: Seq<char>, ext: Seq<char>) -> bool {
    &&& p =~= stem + seq!['.'] + ext
    &&& stem.len() > 0
    &&& stem.last() != '/'
    &&& forall|i: int| 0 <= i < ext.len() ==> #[trigger] ext[i] != '.' && ext[i] != '/'
}

/// `p` names a file whose extension is `jpg`, `jpeg` or `png` in any case.
pub open spec fn names_image_file(p: Seq<char>) -> bool {
    exists|stem: Seq<char>, ext: Seq<char>| #[trigger] has_extension(p, stem, ext) && is_image_suffix(ext)
}

proof fn lemma_last_index_of_exact(s: Seq<char>, c: char)
    ensures
        match last_index_of(s, c) {
            Some(k) => 0 <= k < s.len() && s[k] == c && forall|j: int|
                k < j < s.len() ==> #[trigger] s[j] != c,
            None => forall|j: int| 0 <= j < s.len() ==> #[trigger] s[j] != c,
        },
    decreases s.len(),
{
    if s.len() > 0 {
        let rest = s.drop_last();
        lemma_last_index_of_exact(rest, c);
        assert forall|j: int| 0 <= j < rest.len() implies s[j] == rest[j] by {}
    }
}

proof fn lemma_last_index_of_at(s: Seq<char>, c: char, k: int)
    requires
        0 <= k < s.len(),
        s[k] == c,
        forall|j: int| k < j < s.len() ==> #[trigger] s[j] != c,
    ensures
        last_index_of(s, c) == Some(k),
{
    lemma_last_index_of_exact(s, c);
}

proof fn lemma_last_index_of_absent(s: Seq<char>, c: char)
    requires
        forall|j: int| 0 <= j < s.len() ==> #[trigger] s[j] != c,
    ensures
        last_index_of(s, c) is None,
{
    lemma_last_index_of_exact(s, c);
    if let Some(k) = last_index_of(s, c) {
        assert(s[k] != c);
    }
}

proof fn lemma_image_extension_is_suffix(e: Seq<char>)
    ensures
        is_image_extension(e) == is_image_suffix(e),
{
    let j3 = spells_ignoring_case(e, seq!['j', 'p', 'g'], seq!['J', 'P', 'G']);
    let j4 = spells_ignoring_case(e, seq!['j', 'p', 'e', 'g'], seq!['J', 'P', 'E', 'G']);
    let p3 = spells_ignoring_case(e, seq!['p', 'n', 'g'], seq!['P', 'N', 'G']);
    if e.len() == 3 {
        if is_letter(e[0], 'j', 'J') && is_letter(e[1], 'p', 'P') && is_letter(e[2], 'g', 'G') {
            assert forall|i: int| 0 <= i < 3 implies e[i] == seq!['j', 'p', 'g'][i] || e[i]
                == seq!['J', 'P', 'G'][i] by {
                if i == 0 {
                } else if i == 1 {
                } else {
                }
            }
        }
        if is_letter(e[0], 'p', 'P') && is_letter(e[1], 'n', 'N') && is_letter(e[2], 'g', 'G') {
            assert forall|i: int| 0 <= i < 3 implies e[i] == seq!['p', 'n', 'g'][i] || e[i]
                == seq!['P', 'N', 'G'][i] by {
                if i == 0 {
                } else if i == 1 {
                } else {
                }
            }
        }
        if j3 {
            assert(e[0] == seq!['j', 'p', 'g'][0] || e[0] == seq!['J', 'P', 'G'][0]);
            assert(e[1] == seq!['j', 'p', 'g'][1] || e[1] == seq!['J', 'P', 'G'][1]);
            assert(e[2] == seq!['j', 'p', 'g'][2] || e[2] == seq!['J', 'P', 'G'][2]);
        }
        if p3 {
            assert(e[0] == seq!['p', 'n', 'g'][0] || e[0] == seq!['P', 'N', 'G'][0]);
            assert(e[1] == seq!['p', 'n', 'g'][1] || e[1] == seq!['P', 'N', 'G'][1]);
            assert(e[2] == seq!['p', 'n', 'g'][2] || e[2] == seq!['P', 'N', 'G'][2]);
        }
    }
    if e.len() == 4 {
        if is_letter(e[0], 'j', 'J') && is_letter(e[1], 'p', 'P') && is_letter(e[2], 'e', 'E')
            && is_letter(e[3], 'g', 'G') {
            assert forall|i: int| 0 <= i < 4 implies e[i] == seq!['j', 'p', 'e', 'g'][i] || e[i]
                == seq!['J', 'P', 'E', 'G'][i] by {
                if i == 0 {
                } else if i == 1 {
                } else if i == 2 {
                } else {
                }
            }
        }
        if j4 {
            assert(e[0] == seq!['j', 'p', 'e', 'g'][0] || e[0] == seq!['J', 'P', 'E', 'G'][0]);
            assert(e[1] == seq!['j', 'p', 'e', 'g'][1] || e[1] == seq!['J', 'P', 'E', 'G'][1]);
            assert(e[2] == seq!['j', 'p', 'e', 'g'][2] || e[2] == seq!['J', 'P', 'E', 'G'][2]);
            assert(e[3] == seq!['j', 'p', 'e', 'g'][3] || e[3] == seq!['J', 'P', 'E', 'G'][3]);
        }
    }
}

/// The file name of `p` is the part after its last slash, and holds no slash.
proof fn lemma_file_name_setup(p: Seq<char>) -> (start: int)
    ensures
        0 <= start <= p.len(),
        file_name(p) =~= p.subrange(start, p.len() as int),
        forall|i: int| 0 <= i < file_name(p).len() ==> #[trigger] file_name(p)[i] != '/',
        start > 0 ==> p[start - 1] == '/',
        forall|j: int| start <= j < p.len() ==> #[trigger] p[j] != '/',
{
    lemma_last_index_of_exact(p, '/');
    let start: int = match last_index_of(p, '/') {
        Some(j) => j + 1,
        None => 0,
    };
    let name = file_name(p);
    assert(name =~= p.subrange(start, p.len() as int));
    assert forall|i: int| 0 <= i < name.len() implies #[trigger] name[i] != '/' by {
        assert(name[i] == p[start + i]);
    }
    start
}

#[verifier::spinoff_prover]
proof fn lemma_image_path_names_image(p: Seq<char>)
    requires
        is_image_path(p),
    ensures
        names_image_file(p),
{
    let start = lemma_file_name_setup(p);
    let name = file_name(p);
    lemma_last_index_of_exact(name, '.');
    let k = last_index_of(name, '.').unwrap();
    let ext = name.subrange(k + 1, name.len() as int);
    let stem = p.subrange(0, start + k);
    lemma_image_extension_is_suffix(ext);
    assert(p[start + k] == name[k]);
    assert(stem.last() == name[k - 1]);
    assert forall|i: int| 0 <= i < ext.len() implies #[trigger] ext[i] != '.' && ext[i] != '/' by {
        assert(ext[i] == name[k + 1 + i]);
    }
    assert(p =~= stem + seq!['.'] + ext);
    assert(has_extension(p, stem, ext));
}

#[verifier::spinoff_prover]
proof fn lemma_named_image_is_image_path(p: Seq<char>)
    requires
        names_image_file(p),
    ensures
        is_image_path(p),
{
    let start = lemma_file_name_setup(p);
    let name = file_name(p);
    let (stem, ext) = choose|stem: Seq<char>, ext: Seq<char>|
        #[trigger] has_extension(p, stem, ext) && is_image_suffix(ext);
    let n = stem.len() as int;
    assert(p[n - 1] == stem.last());
    assert(p[n] == '.');
    assert(start <= n - 1) by {
        if start > n - 1 {
            assert(p[start - 1] == '/');
            if start - 1 > n {
                assert(p[start - 1] == ext[start - 1 - n - 1]);
            }
        }
    }
    let m = n - start;
    assert(name[m] == '.');
    assert forall|j: int| m < j < name.len() implies #[trigger] name[j] != '.' by {
        assert(name[j] == ext[j - m - 1]);
    }
    lemma_last_index_of_at(name, '.', m);
    assert(name.subrange(m + 1, name.len() as int) =~= ext);
    lemma_image_extension_is_suffix(ext);
}

/// A path is taken as an image exactly when it names a file whose extension is `jpg`,
/// `jpeg` or `png`, every letter in either case: `x.JPG`, `x.Jpg`, `dir/a.b.png` are
/// images; `x.gif`, `dir/.png` (a hidden file with no extension) and `x.jpg/y` are not.
pub proof fn lemma_image_path_law(p: Seq<char>)
    ensures
        is_image_path(p) == names_image_file(p),
{
    if is_image_path(p) {
        lemma_image_path_names_image(p);
    }
    if names_image_file(p) {
        lemma_named_image_is_image_path(p);
    }
}

proof fn lemma_image_paths_members(paths: Seq<Seq<char>>, x: Seq<char>)
    ensures
        image_paths(paths).contains(x) == (paths.contains(x) && is_image_path(x)),
    decreases paths.len(),
{
    if paths.len() > 0 {
        let rest = paths.drop_last();
        lemma_image_paths_members(rest, x);
        assert(paths =~= rest.push(paths.last()));
        if paths.contains(x) && !rest.contains(x) {
            let i = choose|i: int| 0 <= i < paths.len() && paths[i] == x;
            if i < rest.len() {
                assert(rest[i] == x);
            }
        }
        if rest.contains(x) {
            let i = choose|i: int| 0 <= i < rest.len() && rest[i] == x;
            assert(paths[i] == x);
        }
        if is_image_path(paths.last()) {
            let prev = image_paths(rest);
            if prev.contains(x) {
                let i = choose|i: int| 0 <= i < prev.len() && prev[i] == x;
                assert(image_paths(paths)[i] == x);
            }
            if image_paths(paths).contains(x) && x != paths.last() {
                let i = choose|i: int| 0 <= i < image_paths(paths).len() && image_paths(paths)[i] == x;
                assert(prev[i] == x);
            }
            assert(image_paths(paths)[prev.len() as int] == paths.last());
        }
    }
}

/// What `select_images` returns, stated over the listing itself: it is in path order,
/// and a path is in it exactly when the listing holds that path and the path names a
/// file whose extension is `jpg`, `jpeg` or `png`, each letter in either case.
pub proof fn lemma_select_images_law(paths: Seq<Seq<char>>, selected: Seq<Seq<char>>)
    requires
        selected == image_paths(paths).sort_by(path_order()),
    ensures
        sorted_by(selected, path_order()),
        forall|x: Seq<char>|
            #[trigger] selected.contains(x) == (paths.contains(x) && names_image_file(x)),
{
    lemma_path_order_total();
    image_paths(paths).lemma_sort_by_ensures(path_order());
    assert forall|x: Seq<char>| #[trigger] selected.contains(x) == (paths.contains(x)
        && names_image_file(x)) by {
        vstd::seq_lib::to_multiset_contains(selected, x);
        vstd::seq_lib::to_multiset_contains(image_paths(paths), x);
        lemma_image_paths_members(paths, x);
        lemma_image_path_law(x);
    }
}

} // verus!
