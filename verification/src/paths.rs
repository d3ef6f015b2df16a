//! Image files by their paths.
//!
//! A path is a text in which `/` stands between the parts. The prefixes that a path can
//! have on Windows, such as the letter of a drive, are not known here: a part like any
//! other is what they are taken for, and a backslash is a character like any other.

use vstd::prelude::*;

use crate::text::{ascii_lower_text, chars_of, is_text, text_of, to_ascii_lower};

verus! {

/// The parts of `p` between the separators.
pub open spec fn parts(p: Seq<char>) -> Seq<Seq<char>>
    decreases p.len(),
{
    if p.len() == 0 {
        seq![Seq::<char>::empty()]
    } else {
        let earlier = parts(p.drop_last());
        if p.last() == '/' {
            earlier.push(Seq::<char>::empty())
        } else {
            earlier.drop_last().push(earlier.last().push(p.last()))
        }
    }
}

/// Whether a part names something: it is neither empty nor a single dot.
pub open spec fn is_name(part: Seq<char>) -> bool {
    part.len() > 0 && part != seq!['.']
}

/// The final component of a path, unless there is none or it leads upwards.
pub open spec fn file_name(p: Seq<char>) -> Option<Seq<char>> {
    let names = parts(p).filter(|part: Seq<char>| is_name(part));
    if names.len() == 0 || names.last() == seq!['.', '.'] {
        None
    } else {
        Some(names.last())
    }
}

/// `at` is where the last dot of `name` stands.
pub open spec fn is_last_dot(name: Seq<char>, at: int) -> bool {
    &&& 0 <= at < name.len()
    &&& name[at] == '.'
    &&& forall|i: int| at < i < name.len() ==> name[i] != '.'
}

/// `ext` is what stands behind the last dot of `name`; a dot in front does not count.
pub open spec fn is_extension(name: Seq<char>, ext: Seq<char>) -> bool {
    exists|at: int|
        at > 0 && #[trigger] is_last_dot(name, at) && ext == name.subrange(
            at + 1,
            name.len() as int,
        )
}

/// The extensions of image files, in small letters.
pub open spec fn is_image_extension(ext: Seq<char>) -> bool {
    ||| ext == "jpg"@
    ||| ext == "jpeg"@
    ||| ext == "png"@
    ||| ext == "gif"@
    ||| ext == "bmp"@
    ||| ext == "webp"@
    ||| ext == "tiff"@
}

/// Whether a name has the extension of an image file, in large or small letters.
pub open spec fn has_image_extension(name: Seq<char>) -> bool {
    exists|ext: Seq<char>| #[trigger]
        is_extension(name, ext) && is_image_extension(ascii_lower_text(ext))
}

/// Whether a path is that of an image file: by the extension of its file name.
pub open spec fn names_image(p: Seq<char>) -> bool {
    file_name(p) is Some && has_image_extension(file_name(p)->0)
}

/// The components of a path: the root, or the dot that it starts with, and the parts
/// that name something.
pub open spec fn components(p: Seq<char>) -> Seq<Seq<char>> {
    let names = parts(p).filter(|part: Seq<char>| is_name(part));
    if p.len() > 0 && p[0] == '/' {
        seq![seq!['/']] + names
    } else if starts_with_dot(p) {
        seq![seq!['.']] + names
    } else {
        names
    }
}

/// Whether the first part of a path is a single dot.
pub open spec fn starts_with_dot(p: Seq<char>) -> bool {
    p.len() > 0 && p[0] == '.' && (p.len() == 1 || p[1] == '/')
}

/// Texts with two hyphens between them.
pub open spec fn hyphenated(texts: Seq<Seq<char>>) -> Seq<char>
    decreases texts.len(),
{
    if texts.len() == 0 {
        Seq::empty()
    } else if texts.len() == 1 {
        texts[0]
    } else {
        hyphenated(texts.drop_last()) + "--"@ + texts.last()
    }
}

/// A path without a file name.
pub struct InvalidPath {
    pub path: String,
}

impl InvalidPath {
    /// What to say, where `shown` is the path as it is shown to the user.
    pub fn message(&self, shown: &str) -> (s: String)
        ensures
            s@ == "Invalid path: "@ + shown@,
    {
        let mut s = String::new();
        s.push_str("Invalid path: ");
        s.push_str(shown);
        assert(s@ =~= "Invalid path: "@ + shown@);
        s
    }
}

/// The files of a listing that are not cached yet, in their order. Each entry says whether
/// the file is cached.
pub fn files_to_fetch(listing: &Vec<(String, bool)>) -> (files: Vec<String>)
    ensures
        files@ == listing@.filter(|e: (String, bool)| !e.1).map_values(|e: (String, bool)| e.0),
{
    let ghost missing = |e: (String, bool)| !e.1;
    let ghost name_of = |e: (String, bool)| e.0;
    let mut files: Vec<String> = Vec::new();
    let mut i: usize = 0;
    assert(listing@.take(0).filter(missing).map_values(name_of) =~= Seq::<String>::empty()) by {
        reveal(Seq::filter);
    }
    while i < listing.len()
        invariant
            i <= listing@.len(),
            missing == (|e: (String, bool)| !e.1),
            name_of == (|e: (String, bool)| e.0),
            files@ == listing@.take(i as int).filter(missing).map_values(name_of),
        decreases listing@.len() - i,
    {
        assert(listing@.take(i + 1).drop_last() =~= listing@.take(i as int));
        proof {
            reveal(Seq::filter);
        }
        if !listing[i].1 {
            files.push(listing[i].0.clone());
            assert(files@ =~= listing@.take(i + 1).filter(missing).map_values(name_of));
        }
        i = i + 1;
    }
    assert(listing@.take(listing@.len() as int) =~= listing@);
    files
}

/// The contents of lists of characters.
pub open spec fn contents(lists: Seq<Vec<char>>) -> Seq<Seq<char>> {
    lists.map_values(|l: Vec<char>| l@)
}

/// The parts that name something.
fn names_in(path: &str) -> (names: Vec<Vec<char>>)
    ensures
        contents(names@) == parts(path@).filter(|part: Seq<char>| is_name(part)),
{
    let chars = chars_of(path);
    let ghost named = |part: Seq<char>| is_name(part);
    let mut names: Vec<Vec<char>> = Vec::new();
    let mut part: Vec<char> = Vec::new();
    let mut i: usize = 0;
    assert(parts(chars@.take(0)) =~= seq![Seq::<char>::empty()]);
    assert(contents(names@) =~= parts(chars@.take(0)).drop_last().filter(named)) by {
        reveal(Seq::filter);
    }
    while i < chars.len()
        invariant
            i <= chars@.len(),
            named == (|part: Seq<char>| is_name(part)),
            parts(chars@.take(i as int)).len() > 0,
            part@ == parts(chars@.take(i as int)).last(),
            contents(names@) == parts(chars@.take(i as int)).drop_last().filter(named),
        decreases chars@.len() - i,
    {
        let c: char = chars[i];
        let ghost before = parts(chars@.take(i as int));
        let ghost after = parts(chars@.take(i + 1));
        assert(chars@.take(i + 1).drop_last() =~= chars@.take(i as int));
        assert(chars@.take(i + 1).last() == c);
        if c == '/' {
            assert(after.drop_last() =~= before);
            push_name(&mut names, part, Ghost(before));
            part = Vec::new();
            assert(part@ =~= after.last());
        } else {
            part.push(c);
            assert(after.drop_last() =~= before.drop_last());
        }
        i = i + 1;
    }
    assert(chars@.take(chars@.len() as int) =~= chars@);
    push_name(&mut names, part, Ghost(parts(path@)));
    names
}

/// Adds a part to the names, if it is one. `found` holds the parts so far, this one last.
fn push_name(names: &mut Vec<Vec<char>>, part: Vec<char>, Ghost(found): Ghost<Seq<Seq<char>>>)
    requires
        found.len() > 0,
        part@ == found.last(),
        contents(old(names)@) == found.drop_last().filter(|part: Seq<char>| is_name(part)),
    ensures
        contents(final(names)@) == found.filter(|part: Seq<char>| is_name(part)),
{
    let ghost named = |part: Seq<char>| is_name(part);
    let ghost earlier = names@;
    proof {
        reveal(Seq::filter);
    }
    if part.len() > 0 && !(part.len() == 1 && part[0] == '.') {
        assert(named(part@));
        names.push(part);
        assert(contents(names@) =~= contents(earlier).push(part@));
    } else {
        assert(part@.len() > 0 ==> part@ =~= seq!['.']);
        assert(!named(part@));
    }
}

/// The characters of the file name.
fn file_name_chars(path: &str) -> (name: Option<Vec<char>>)
    ensures
        match name {
            Some(n) => file_name(path@) == Some(n@),
            None => file_name(path@) is None,
        },
{
    let mut names = names_in(path);
    let ghost all = names@;
    match names.pop() {
        Some(n) => {
            assert(contents(all).last() == n@);
            if n.len() == 2 && n[0] == '.' && n[1] == '.' {
                assert(n@ =~= seq!['.', '.']);
                None
            } else {
                Some(n)
            }
        },
        None => None,
    }
}

/// The file name of a path.
pub fn get_filename(path: &str) -> (name: Result<String, InvalidPath>)
    ensures
        name is Ok <==> file_name(path@) is Some,
        name matches Ok(n) ==> n@ == file_name(path@)->0,
        name matches Err(e) ==> e.path@ == path@,
{
    match file_name_chars(path) {
        Some(n) => Ok(text_of(&n)),
        None => Err(InvalidPath { path: path.to_owned() }),
    }
}

/// The folder for a model: the components of its name, with two hyphens between them.
pub fn model_folder(model: &str) -> (folder: String)
    ensures
        folder@ == hyphenated(components(model@)),
{
    let chars = chars_of(model);
    let mut names = names_in(model);
    let ghost plain = contents(names@);
    if chars.len() > 0 && chars[0] == '/' {
        let mut root: Vec<char> = Vec::new();
        root.push('/');
        assert(root@ =~= seq!['/']);
        names.insert(0, root);
        assert(contents(names@) =~= seq![seq!['/']] + plain);
    } else if chars.len() > 0 && chars[0] == '.' && (chars.len() == 1 || chars[1] == '/') {
        let mut dot: Vec<char> = Vec::new();
        dot.push('.');
        assert(dot@ =~= seq!['.']);
        names.insert(0, dot);
        assert(contents(names@) =~= seq![seq!['.']] + plain);
    }
    let ghost all = contents(names@);
    assert(all == components(model@));
    let mut folder = String::new();
    let mut i: usize = 0;
    while i < names.len()
        invariant
            i <= names@.len(),
            all == contents(names@),
            folder@ == hyphenated(all.take(i as int)),
        decreases names@.len() - i,
    {
        assert(all.take(i + 1).drop_last() =~= all.take(i as int));
        if i > 0 {
            folder.push_str("--");
        }
        folder.push_str(text_of(&names[i]).as_str());
        assert(folder@ =~= hyphenated(all.take(i + 1)));
        i = i + 1;
    }
    assert(all.take(all.len() as int) =~= all);
    folder
}

/// What stands behind the last dot, in small letters, if that is an extension.
fn lower_extension(name: &Vec<char>) -> (ext: Option<String>)
    ensures
        match ext {
            Some(e) => exists|x: Seq<char>| #[trigger]
                is_extension(name@, x) && e@ == ascii_lower_text(x),
            None => forall|x: Seq<char>| !is_extension(name@, x),
        },
{
    let mut at: usize = name.len();
    while at > 0 && name[at - 1] != '.'
        invariant
            at <= name@.len(),
            forall|i: int| at <= i < name@.len() ==> name@[i] != '.',
        decreases at,
    {
        at = at - 1;
    }
    if at <= 1 {
        return None;
    }
    let ghost ext = name@.subrange(at as int, name@.len() as int);
    assert(is_last_dot(name@, at - 1));
    let mut lower = String::new();
    let mut i: usize = at;
    while i < name.len()
        invariant
            at <= i <= name@.len(),
            ext == name@.subrange(at as int, name@.len() as int),
            lower@ == ascii_lower_text(ext).take(i - at),
        decreases name@.len() - i,
    {
        lower.push(to_ascii_lower(name[i]));
        assert(lower@ =~= ascii_lower_text(ext).take(i + 1 - at));
        i = i + 1;
    }
    assert(lower@ =~= ascii_lower_text(ext));
    assert(is_extension(name@, ext));
    Some(lower)
}

/// A name has one extension at most.
proof fn lemma_one_extension(name: Seq<char>, x: Seq<char>, y: Seq<char>)
    requires
        is_extension(name, x),
        is_extension(name, y),
    ensures
        x == y,
{
}

/// Whether a path is that of an image file.
pub fn is_image(path: &str) -> (b: bool)
    ensures
        b == names_image(path@),
{
    match file_name_chars(path) {
        Some(name) => match lower_extension(&name) {
            Some(ext) => {
                let known = is_text(&ext, "jpg") || is_text(&ext, "jpeg") || is_text(&ext, "png")
                    || is_text(&ext, "gif") || is_text(&ext, "bmp") || is_text(&ext, "webp")
                    || is_text(&ext, "tiff");
                proof {
                    let x = choose|x: Seq<char>| #[trigger]
                        is_extension(name@, x) && ext@ == ascii_lower_text(x);
                    assert forall|y: Seq<char>| #[trigger] is_extension(name@, y) implies y == x by {
                        lemma_one_extension(name@, x, y);
                    }
                    assert(known == has_image_extension(name@));
                }
                known
            },
            None => false,
        },
        None => false,
    }
}

/// The paths of image files among `paths`.
pub fn select_images(paths: &Vec<String>) -> (images: Vec<String>)
    ensures
        images@ == paths@.filter(|p: String| names_image(p@)),
{
    let ghost wanted = |p: String| names_image(p@);
    let mut images: Vec<String> = Vec::new();
    let mut i: usize = 0;
    assert(paths@.take(0).filter(wanted) =~= Seq::<String>::empty()) by {
        reveal(Seq::filter);
    }
    while i < paths.len()
        invariant
            i <= paths@.len(),
            wanted == (|p: String| names_image(p@)),
            images@ == paths@.take(i as int).filter(wanted),
        decreases paths@.len() - i,
    {
        assert(paths@.take(i + 1).drop_last() =~= paths@.take(i as int));
        proof {
            reveal(Seq::filter);
        }
        if is_image(paths[i].as_str()) {
            images.push(paths[i].clone());
        }
        i = i + 1;
    }
    assert(paths@.take(paths@.len() as int) =~= paths@);
    images
}

/// An image file and the name that it is indexed by.
pub struct NamedImage {
    pub path: String,
    pub name: String,
}

/// Each path with its file name. A path without one is an error.
pub fn name_images(paths: &Vec<String>) -> (r: Result<Vec<NamedImage>, InvalidPath>)
    ensures
        r is Ok <==> forall|i: int|
            0 <= i < paths@.len() ==> file_name((#[trigger] paths@[i])@) is Some,
        r matches Ok(images) ==> {
            &&& images@.len() == paths@.len()
            &&& forall|i: int|
                0 <= i < paths@.len() ==> (#[trigger] images@[i]).path@ == paths@[i]@
                    && file_name(paths@[i]@) == Some(images@[i].name@)
        },
        r matches Err(e) ==> exists|i: int|
            {
                &&& 0 <= i < paths@.len()
                &&& e.path@ == (#[trigger] paths@[i])@
                &&& file_name(paths@[i]@) is None
                &&& forall|j: int| 0 <= j < i ==> file_name((#[trigger] paths@[j])@) is Some
            },
{
    let mut images: Vec<NamedImage> = Vec::new();
    let mut i: usize = 0;
    while i < paths.len()
        invariant
            i <= paths@.len(),
            images@.len() == i,
            forall|j: int|
                0 <= j < i ==> (#[trigger] images@[j]).path@ == paths@[j]@ && file_name(
                    paths@[j]@,
                ) == Some(images@[j].name@),
            forall|j: int| 0 <= j < i ==> file_name((#[trigger] paths@[j])@) is Some,
        decreases paths@.len() - i,
    {
        match get_filename(paths[i].as_str()) {
            Ok(name) => {
                images.push(NamedImage { path: paths[i].clone(), name });
            },
            Err(e) => {
                assert(file_name(paths@[i as int]@) is None);
                return Err(e);
            },
        }
        i = i + 1;
    }
    Ok(images)
}

/// Every image file has a name to index it by.
pub proof fn lemma_images_have_names(p: Seq<char>)
    requires
        names_image(p),
    ensures
        file_name(p) is Some,
        file_name(p)->0.len() > 0,
{
    let named = |part: Seq<char>| is_name(part);
    let names = parts(p).filter(named);
    parts(p).lemma_filter_pred(named, names.len() - 1);
    assert(named(names[names.len() - 1]));
}

/// What stands behind the last dot keeps its place when the letters become small.
proof fn lemma_lower_extension(name: Seq<char>, ext: Seq<char>)
    requires
        is_extension(name, ext),
    ensures
        is_extension(ascii_lower_text(name), ascii_lower_text(ext)),
{
    let lower = ascii_lower_text(name);
    let at = choose|at: int|
        at > 0 && #[trigger] is_last_dot(name, at) && ext == name.subrange(
            at + 1,
            name.len() as int,
        );
    assert(is_last_dot(lower, at));
    assert(ascii_lower_text(ext) =~= lower.subrange(at + 1, lower.len() as int));
}

/// Whether a name is that of an image does not depend on large and small letters.
pub proof fn lemma_letter_size_does_not_matter(name: Seq<char>)
    ensures
        has_image_extension(ascii_lower_text(name)) <==> has_image_extension(name),
{
    let lower = ascii_lower_text(name);
    assert(forall|x: Seq<char>| ascii_lower_text(#[trigger] ascii_lower_text(x)) =~= ascii_lower_text(x));
    if has_image_extension(name) {
        let ext = choose|ext: Seq<char>| #[trigger]
            is_extension(name, ext) && is_image_extension(ascii_lower_text(ext));
        lemma_lower_extension(name, ext);
        assert(is_extension(lower, ascii_lower_text(ext)));
    }
    if has_image_extension(lower) {
        let ext = choose|ext: Seq<char>| #[trigger]
            is_extension(lower, ext) && is_image_extension(ascii_lower_text(ext));
        let at = choose|at: int|
            at > 0 && #[trigger] is_last_dot(lower, at) && ext == lower.subrange(
                at + 1,
                lower.len() as int,
            );
        let own = name.subrange(at + 1, name.len() as int);
        assert forall|i: int| at < i < name.len() implies name[i] != '.' by {
            assert(lower[i] != '.');
        }
        assert(lower[at] == '.');
        assert(is_last_dot(name, at));
        assert(is_extension(name, own));
        assert(ascii_lower_text(own) =~= ext);
    }
}

/// Texts with a separator between them.
pub open spec fn slashed(texts: Seq<Seq<char>>) -> Seq<char>
    decreases texts.len(),
{
    if texts.len() == 0 {
        Seq::empty()
    } else if texts.len() == 1 {
        texts[0]
    } else {
        slashed(texts.drop_last()) + seq!['/'] + texts.last()
    }
}

/// The parts of a path, with the separators between them, are the path, and no part holds a
/// separator.
pub proof fn lemma_parts_make_up_the_path(p: Seq<char>)
    ensures
        parts(p).len() > 0,
        slashed(parts(p)) == p,
        forall|k: int, i: int|
            0 <= k < parts(p).len() && 0 <= i < parts(p)[k].len() ==> (#[trigger] parts(p)[k][i])
                != '/',
    decreases p.len(),
{
    if p.len() == 0 {
        assert(slashed(parts(p)) =~= p);
    } else {
        let front = p.drop_last();
        let earlier = parts(front);
        lemma_parts_make_up_the_path(front);
        assert(front.push(p.last()) =~= p);
        if p.last() == '/' {
            assert(parts(p).drop_last() =~= earlier);
            assert(slashed(parts(p)) =~= p);
        } else {
            let longer = earlier.last().push(p.last());
            assert(parts(p).drop_last() =~= earlier.drop_last());
            assert(parts(p).last() == longer);
            if earlier.len() == 1 {
                assert(parts(p)[0] == longer);
                assert(slashed(parts(p)) =~= p);
            } else {
                assert(slashed(earlier) == slashed(earlier.drop_last()) + seq!['/'] + earlier.last());
                assert(slashed(parts(p)) =~= p);
            }
            assert forall|k: int, i: int|
                0 <= k < parts(p).len() && 0 <= i < parts(p)[k].len() implies (
            #[trigger] parts(p)[k][i]) != '/' by {
                if k < earlier.len() - 1 {
                    assert(parts(p)[k] == earlier[k]);
                    assert(earlier[k][i] != '/');
                } else if i < earlier.last().len() {
                    assert(earlier[earlier.len() - 1][i] != '/');
                }
            }
        }
        if p.last() == '/' {
            assert forall|k: int, i: int|
                0 <= k < parts(p).len() && 0 <= i < parts(p)[k].len() implies (
            #[trigger] parts(p)[k][i]) != '/' by {
                assert(parts(p)[k] == earlier[k]);
                assert(earlier[k][i] != '/');
            }
        }
    }
}

/// A part behind a separator is a part of its own.
proof fn lemma_part_behind_separator(p: Seq<char>, n: Seq<char>)
    requires
        forall|i: int| 0 <= i < n.len() ==> (#[trigger] n[i]) != '/',
    ensures
        parts(p + seq!['/'] + n) == parts(p).push(n),
    decreases n.len(),
{
    let whole = p + seq!['/'] + n;
    if n.len() == 0 {
        assert(whole.drop_last() =~= p);
        assert(whole.last() == '/');
        assert(n =~= Seq::empty());
    } else {
        lemma_part_behind_separator(p, n.drop_last());
        assert(whole.drop_last() =~= p + seq!['/'] + n.drop_last());
        assert(whole.last() == n[n.len() - 1]);
        assert(n.drop_last().push(n.last()) =~= n);
        assert(parts(whole) =~= parts(p).push(n));
    }
}

/// A path without separators has one part.
proof fn lemma_single_part(n: Seq<char>)
    requires
        forall|i: int| 0 <= i < n.len() ==> (#[trigger] n[i]) != '/',
    ensures
        parts(n) == seq![n],
    decreases n.len(),
{
    if n.len() == 0 {
        assert(n =~= Seq::empty());
        assert(parts(n) =~= seq![n]);
    } else {
        lemma_single_part(n.drop_last());
        assert(n[n.len() - 1] != '/');
        assert(n.drop_last().push(n.last()) =~= n);
        assert(parts(n) =~= seq![n]);
    }
}

/// A text that can name a file: not empty, no separator in it, neither of the two dots.
pub open spec fn is_plain_name(n: Seq<char>) -> bool {
    &&& n.len() > 0
    &&& n != seq!['.']
    &&& n != seq!['.', '.']
    &&& forall|i: int| 0 <= i < n.len() ==> (#[trigger] n[i]) != '/'
}

/// The file name is what stands behind the last separator. One more separator at the end,
/// or a single dot behind one, makes no difference; two dots leave no file name, and nor
/// does an empty path.
pub proof fn lemma_file_name_is_the_last_part(p: Seq<char>, n: Seq<char>)
    requires
        is_plain_name(n),
    ensures
        file_name(n) == Some(n),
        file_name(p + seq!['/'] + n) == Some(n),
        file_name(p + seq!['/']) == file_name(p),
        file_name(p + seq!['/'] + seq!['.']) == file_name(p),
        file_name(p + seq!['/'] + seq!['.', '.']) is None,
        file_name(seq!['.', '.']) is None,
        file_name(seq!['.']) is None,
        file_name(Seq::<char>::empty()) is None,
{
    reveal(Seq::filter);
    let named = |part: Seq<char>| is_name(part);
    let dot = seq!['.'];
    let dots = seq!['.', '.'];
    let none = Seq::<char>::empty();
    assert(dots.len() != dot.len());
    lemma_single_part(n);
    lemma_single_part(dots);
    lemma_single_part(dot);
    lemma_single_part(none);
    lemma_filter_one(n);
    lemma_filter_one(dots);
    lemma_filter_one(dot);
    lemma_filter_one(none);
    lemma_part_behind_separator(p, n);
    lemma_part_behind_separator(p, dot);
    lemma_part_behind_separator(p, dots);
    lemma_part_behind_separator(p, none);
    assert(p + seq!['/'] + none =~= p + seq!['/']);
    assert(parts(p).push(n).drop_last() =~= parts(p));
    assert(parts(p).push(dot).drop_last() =~= parts(p));
    assert(parts(p).push(dots).drop_last() =~= parts(p));
    assert(parts(p).push(none).drop_last() =~= parts(p));
    assert(named(n) && named(dots) && !named(dot) && !named(none));
}

proof fn lemma_filter_one(n: Seq<char>)
    ensures
        seq![n].filter(|part: Seq<char>| is_name(part)) == (if is_name(n) {
            seq![n]
        } else {
            Seq::<Seq<char>>::empty()
        }),
{
    reveal(Seq::filter);
    let named = |part: Seq<char>| is_name(part);
    let one = seq![n];
    assert(one.drop_last() =~= Seq::empty());
    assert(one.drop_last().filter(named) =~= Seq::empty());
    assert(one.filter(named) =~= (if is_name(n) {
        seq![n]
    } else {
        Seq::<Seq<char>>::empty()
    }));
}

/// A file is an image exactly if what stands behind the last dot of its name, with something
/// before that dot, is one of seven endings in large or small letters. A file without such
/// an ending, and a path without a file name, are none.
pub proof fn lemma_images_are_told_by_their_ending(
    p: Seq<char>,
    stem: Seq<char>,
    ext: Seq<char>,
    bare: Seq<char>,
)
    requires
        stem.len() > 0,
        forall|i: int| 0 <= i < ext.len() ==> (#[trigger] ext[i]) != '.',
        forall|i: int| 1 <= i < bare.len() ==> (#[trigger] bare[i]) != '.',
    ensures
        file_name(p) == Some(stem + seq!['.'] + ext) ==> (names_image(p) <==> {
            let small = ascii_lower_text(ext);
            ||| small == "jpg"@
            ||| small == "jpeg"@
            ||| small == "png"@
            ||| small == "gif"@
            ||| small == "bmp"@
            ||| small == "webp"@
            ||| small == "tiff"@
        }),
        file_name(p) == Some(bare) ==> !names_image(p),
        file_name(p) is None ==> !names_image(p),
{
    let name = stem + seq!['.'] + ext;
    let at = stem.len() as int;
    assert(name[at] == '.');
    assert forall|i: int| at < i < name.len() implies name[i] != '.' by {
        assert(name[i] == ext[i - at - 1]);
    }
    assert(is_last_dot(name, at));
    assert(name.subrange(at + 1, name.len() as int) =~= ext);
    assert(is_extension(name, ext));
    assert forall|x: Seq<char>| #[trigger] is_extension(name, x) implies x == ext by {
        lemma_one_extension(name, x, ext);
    }
    assert forall|x: Seq<char>| !(#[trigger] is_extension(bare, x)) by {
        if is_extension(bare, x) {
            let d = choose|d: int|
                d > 0 && #[trigger] is_last_dot(bare, d) && x == bare.subrange(
                    d + 1,
                    bare.len() as int,
                );
            assert(bare[d] != '.');
        }
    }
}

/// One more name behind a separator is one more component; an empty part or a dot there is
/// none. The root and a leading dot are components of their own.
pub proof fn lemma_components_grow_by_names(p: Seq<char>, n: Seq<char>)
    requires
        n.len() > 0,
        n != seq!['.'],
        forall|i: int| 0 <= i < n.len() ==> (#[trigger] n[i]) != '/',
    ensures
        components(n) == seq![n],
        p.len() > 0 ==> components(p + seq!['/'] + n) == components(p).push(n),
        p.len() > 0 ==> components(p + seq!['/']) == components(p),
        p.len() > 0 ==> components(p + seq!['/'] + seq!['.']) == components(p),
        components(seq!['.']) == seq![seq!['.']],
        components(seq!['/']) == seq![seq!['/']],
        components(seq!['/'] + n) == seq![seq!['/'], n],
        components(seq!['/'] + seq!['.']) == seq![seq!['/']],
        components(Seq::<char>::empty()) == Seq::<Seq<char>>::empty(),
{
    reveal(Seq::filter);
    let named = |part: Seq<char>| is_name(part);
    let dot = seq!['.'];
    let root = seq!['/'];
    let none = Seq::<char>::empty();
    lemma_single_part(n);
    lemma_single_part(dot);
    lemma_single_part(none);
    lemma_filter_one(n);
    lemma_filter_one(dot);
    lemma_filter_one(none);
    assert(n[0] != '/');
    if starts_with_dot(n) {
        if n.len() > 1 {
            assert(n[1] != '/');
        }
        assert(n =~= dot);
    }
    assert(components(dot) =~= seq![dot]);
    lemma_part_behind_separator(none, none);
    assert(none + root + none =~= root);
    assert(parts(root) =~= seq![none, none]);
    assert(parts(root).drop_last() =~= seq![none]);
    assert(components(root) =~= seq![root]);
    lemma_part_behind_separator(none, n);
    lemma_part_behind_separator(none, dot);
    assert(none + root + n =~= root + n);
    assert(none + root + dot =~= root + dot);
    assert(seq![none].push(n).drop_last() =~= seq![none]);
    assert(seq![none].push(dot).drop_last() =~= seq![none]);
    assert((root + n)[0] == '/' && (root + dot)[0] == '/');
    assert(components(root + n) =~= seq![root, n]);
    assert(components(root + dot) =~= seq![root]);
    if p.len() > 0 {
        lemma_part_behind_separator(p, n);
        lemma_part_behind_separator(p, dot);
        lemma_part_behind_separator(p, none);
        assert(p + root + none =~= p + root);
        assert(parts(p).push(n).drop_last() =~= parts(p));
        assert(parts(p).push(dot).drop_last() =~= parts(p));
        assert(parts(p).push(none).drop_last() =~= parts(p));
        assert(named(n) && !named(dot) && !named(none));
        assert((p + root + n)[0] == p[0] && (p + root)[0] == p[0] && (p + root + dot)[0] == p[0]);
        assert(p.len() > 1 ==> (p + root + n)[1] == p[1] && (p + root)[1] == p[1] && (p + root
            + dot)[1] == p[1]);
        assert(p.len() == 1 ==> (p + root + n)[1] == '/' && (p + root)[1] == '/' && (p + root
            + dot)[1] == '/');
        assert(components(p + root + n) =~= components(p).push(n));
        assert(components(p + root) =~= components(p));
        assert(components(p + root + dot) =~= components(p));
    }
}

/// Two hyphens stand between neighbours and nowhere else.
pub proof fn lemma_hyphens_stand_between(texts: Seq<Seq<char>>, t: Seq<char>)
    ensures
        hyphenated(Seq::<Seq<char>>::empty()) == Seq::<char>::empty(),
        hyphenated(seq![t]) == t,
        texts.len() > 0 ==> hyphenated(texts.push(t)) == hyphenated(texts) + seq!['-', '-'] + t,
{
    reveal_strlit("--");
    assert("--"@ =~= seq!['-', '-']);
    if texts.len() > 0 {
        assert(texts.push(t).drop_last() =~= texts);
    }
}

} // verus!
