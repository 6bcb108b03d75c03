use vstd::prelude::*;

verus! {

/// Path completion for a prompt: which kinds of entry it offers.
#[derive(Clone, Copy, Debug)]
pub struct FileSystemAutocomplete {
    directories: bool,
    files: bool,
}

impl View for FileSystemAutocomplete {
    /// Whether directories, and whether files, are offered.
    type V = (bool, bool);

    closed spec fn view(&self) -> (bool, bool) {
        (self.directories, self.files)
    }
}

impl FileSystemAutocomplete {
    /// Offers files only.
    pub fn files() -> (r: Self)
        ensures
            r@ == (false, true),
    {
        Self { directories: false, files: true }
    }

    /// Offers directories only.
    pub fn directories() -> (r: Self)
        ensures
            r@ == (true, false),
    {
        Self { directories: true, files: false }
    }

    /// Offers files and directories.
    pub fn both() -> (r: Self)
        ensures
            r@ == (true, true),
    {
        Self { directories: true, files: true }
    }

    /// Whether an entry that is (or is not) a directory, and is (or is not) a
    /// file, is offered.
    pub fn accepts(&self, is_dir: bool, is_file: bool) -> (r: bool)
        ensures
            r == ((self@.0 || !is_dir) && (self@.1 || !is_file)),
    {
        !(is_dir && !self.directories) && !(is_file && !self.files)
    }
}

/// Time zone completion for a prompt.
#[derive(Clone, Copy, Debug)]
pub struct TimezoneAutocomplete;

/// What a prompt completes its input to: the highlighted suggestion if there
/// is one, else the only suggestion if there is exactly one, else nothing.
pub fn completion(highlighted: Option<String>, suggestions: &Vec<String>) -> (r: Option<String>)
    ensures
        highlighted is Some ==> r == highlighted,
        highlighted is None && suggestions@.len() == 1 ==> r == Some(suggestions@[0]),
        highlighted is None && suggestions@.len() != 1 ==> r is None,
{
    if highlighted.is_some() {
        return highlighted;
    }
    if suggestions.len() == 1 {
        Some(suggestions[0].clone())
    } else {
        None
    }
}

/// The lower-case form of a text, as Unicode defines it.
pub uninterp spec fn lower_of(s: Seq<char>) -> Seq<char>;

/// Relies on `str::to_lowercase`: the result depends on the text alone, and
/// the empty text stays empty.
#[verifier::external_body]
pub(crate) fn lowercase(s: &str) -> (r: String)
    ensures
        r@ == lower_of(s@),
        s@.len() == 0 ==> r@.len() == 0,
{
    s.to_lowercase()
}

/// `needle` occurs in `haystack` starting at `i`.
pub open spec fn occurs_at(haystack: Seq<char>, needle: Seq<char>, i: int) -> bool {
    0 <= i && i + needle.len() <= haystack.len() && haystack.subrange(i, i + needle.len())
        == needle
}

/// `needle` occurs somewhere in `haystack`.
pub open spec fn contains_seq(haystack: Seq<char>, needle: Seq<char>) -> bool {
    exists|i: int| occurs_at(haystack, needle, i)
}

fn chars_of(s: &str) -> (r: Vec<char>)
    ensures
        r@ == s@,
{
    let n = s.unicode_len();
    let mut r: Vec<char> = Vec::new();
    let mut i: usize = 0;
    while i < n
        invariant
            n == s@.len(),
            i <= n,
            r@ == s@.take(i as int),
        decreases n - i,
    {
        r.push(s.get_char(i));
        assert(s@.take(i + 1) == s@.take(i as int).push(s@[i as int]));
        i += 1;
    }
    assert(s@.take(n as int) == s@);
    r
}

/// Whether `needle` occurs in `haystack`.
pub fn contains_text(haystack: &str, needle: &str) -> (r: bool)
    ensures
        r == contains_seq(haystack@, needle@),
{
    let h = chars_of(haystack);
    let n = chars_of(needle);
    if n.len() > h.len() {
        assert forall|i: int| !occurs_at(haystack@, needle@, i) by {}
        return false;
    }
    let hl = h.len();
    let last = hl - n.len();
    let mut i: usize = 0;
    loop
        invariant
            h@ == haystack@,
            n@ == needle@,
            n@.len() <= h@.len(),
            hl == h@.len(),
            last == h@.len() - n@.len(),
            i <= last,
            forall|k: int| 0 <= k < i ==> !occurs_at(haystack@, needle@, k),
        decreases last - i,
    {
        let mut j: usize = 0;
        let mut same = true;
        while j < n.len()
            invariant
                h@ == haystack@,
                n@ == needle@,
                n@.len() <= h@.len(),
                i <= last,
                last == h@.len() - n@.len(),
                j <= n@.len(),
                hl == h@.len(),
                same == (forall|m: int| 0 <= m < j ==> h@[i + m] == n@[m]),
            decreases n@.len() - j,
        {
            assert(i + j < h@.len());
            if h[i + j] != n[j] {
                same = false;
            }
            j += 1;
        }
        if same {
            assert(haystack@.subrange(i as int, i + needle@.len()) == needle@);
            assert(occurs_at(haystack@, needle@, i as int));
            return true;
        }
        assert(!occurs_at(haystack@, needle@, i as int)) by {
            let m = choose|m: int| 0 <= m < n@.len() && h@[i + m] != n@[m];
            assert(haystack@.subrange(i as int, i + needle@.len())[m] == h@[i + m]);
        }
        if i == last {
            return false;
        }
        i += 1;
    }
}

/// The names in `names` that contain `needle`, in order.
pub open spec fn names_containing(names: Seq<String>, needle: Seq<char>) -> Seq<String>
    decreases names.len(),
{
    if names.len() == 0 {
        seq![]
    } else if contains_seq(lower_of(names.last()@), needle) {
        names_containing(names.drop_last(), needle).push(names.last())
    } else {
        names_containing(names.drop_last(), needle)
    }
}

/// The names that contain `input`, letter case aside, in their order.
pub fn matching_names(names: &Vec<String>, input: &str) -> (r: Vec<String>)
    ensures
        r@ == names_containing(names@, lower_of(input@)),
        input@.len() == 0 ==> r@ == names@,
{
    let needle = lowercase(input);
    let mut r: Vec<String> = Vec::new();
    assert(names@.take(0) == Seq::<String>::empty());
    let mut i: usize = 0;
    while i < names.len()
        invariant
            i <= names@.len(),
            needle@ == lower_of(input@),
            r@ == names_containing(names@.take(i as int), lower_of(input@)),
            input@.len() == 0 ==> r@ == names@.take(i as int),
            input@.len() == 0 ==> lower_of(input@).len() == 0,
        decreases names@.len() - i,
    {
        assert(names@.take(i + 1).drop_last() == names@.take(i as int));
        assert(names@.take(i + 1) == names@.take(i as int).push(names@[i as int]));
        proof {
            if input@.len() == 0 {
                assert(lower_of(names@[i as int]@).subrange(0, 0) =~= lower_of(input@));
                assert(occurs_at(lower_of(names@[i as int]@), lower_of(input@), 0));
            }
        }
        let name = lowercase(names[i].as_str());
        if contains_text(name.as_str(), needle.as_str()) {
            r.push(names[i].clone());
        }
        i += 1;
    }
    assert(names@.take(names@.len() as int) == names@);
    r
}

/// `a` comes no later than `b` when texts are compared character by
/// character, as `str`'s ordering compares them.
pub open spec fn text_le(a: Seq<char>, b: Seq<char>) -> bool
    decreases a.len(),
{
    if a.len() == 0 {
        true
    } else if b.len() == 0 {
        false
    } else if a[0] != b[0] {
        (a[0] as int) < (b[0] as int)
    } else {
        text_le(a.drop_first(), b.drop_first())
    }
}

proof fn lemma_text_le_total(a: Seq<char>, b: Seq<char>)
    ensures
        text_le(a, b) || text_le(b, a),
    decreases a.len(),
{
    if a.len() > 0 && b.len() > 0 && a[0] == b[0] {
        lemma_text_le_total(a.drop_first(), b.drop_first());
    }
}

proof fn lemma_text_le_transitive(a: Seq<char>, b: Seq<char>, c: Seq<char>)
    requires
        text_le(a, b),
        text_le(b, c),
    ensures
        text_le(a, c),
    decreases a.len(),
{
    if a.len() > 0 && b.len() > 0 && c.len() > 0 && a[0] == b[0] && b[0] == c[0] {
        lemma_text_le_transitive(a.drop_first(), b.drop_first(), c.drop_first());
    }
}

proof fn lemma_text_le_reflexive(a: Seq<char>)
    ensures
        text_le(a, a),
    decreases a.len(),
{
    if a.len() > 0 {
        lemma_text_le_reflexive(a.drop_first());
    }
}

/// The texts of `s` whose lower-case form is `key`, in their order.
pub open spec fn with_lower(s: Seq<Seq<char>>, key: Seq<char>) -> Seq<Seq<char>>
    decreases s.len(),
{
    if s.len() == 0 {
        seq![]
    } else if lower_of(s.last()) == key {
        with_lower(s.drop_last(), key).push(s.last())
    } else {
        with_lower(s.drop_last(), key)
    }
}

/// Inserting `x` ahead of texts whose lower-case forms all differ from its
/// own puts it last among the texts that share its lower-case form.
proof fn lemma_with_lower_insert(s: Seq<Seq<char>>, j: int, x: Seq<char>, key: Seq<char>)
    requires
        0 <= j <= s.len(),
        forall|m: int| j <= m < s.len() ==> lower_of(#[trigger] s[m]) != lower_of(x),
    ensures
        with_lower(s.insert(j, x), key) == (if key == lower_of(x) {
            with_lower(s, key).push(x)
        } else {
            with_lower(s, key)
        }),
    decreases s.len(),
{
    if j == s.len() {
        assert(s.insert(j, x) == s.push(x));
        assert(s.push(x).drop_last() == s);
    } else {
        let t = s.drop_last();
        assert(s.insert(j, x).drop_last() == t.insert(j, x));
        assert(s.insert(j, x).last() == s.last());
        assert forall|m: int| j <= m < t.len() implies lower_of(#[trigger] t[m]) != lower_of(x) by {
            assert(t[m] == s[m]);
        }
        lemma_with_lower_insert(t, j, x, key);
        assert(lower_of(s[s.len() - 1]) != lower_of(x));
    }
}

/// The texts of a sequence of strings.
pub open spec fn texts(v: Seq<String>) -> Seq<Seq<char>> {
    v.map_values(|s: String| s@)
}

/// The texts are in order once each is put in lower case.
pub open spec fn sorted_ignoring_case(s: Seq<Seq<char>>) -> bool {
    forall|i: int, j: int|
        0 <= i < j < s.len() ==> text_le(lower_of(#[trigger] s[i]), lower_of(#[trigger] s[j]))
}

fn text_le_exec(a: &Vec<char>, b: &Vec<char>) -> (r: bool)
    ensures
        r == text_le(a@, b@),
{
    let mut i: usize = 0;
    assert(a@.skip(0) == a@ && b@.skip(0) == b@);
    while i < a.len() && i < b.len() && a[i] == b[i]
        invariant
            i <= a@.len(),
            i <= b@.len(),
            text_le(a@, b@) == text_le(a@.skip(i as int), b@.skip(i as int)),
        decreases a@.len() - i,
    {
        assert(a@.skip(i as int).drop_first() == a@.skip(i + 1));
        assert(b@.skip(i as int).drop_first() == b@.skip(i + 1));
        i += 1;
    }
    if i == a.len() {
        assert(a@.skip(i as int).len() == 0);
        true
    } else if i == b.len() {
        assert(a@.skip(i as int).len() > 0 && b@.skip(i as int).len() == 0);
        false
    } else {
        assert(a@.skip(i as int)[0] == a@[i as int]);
        assert(b@.skip(i as int)[0] == b@[i as int]);
        a[i] < b[i]
    }
}

/// Whether `a` comes no later than `b` once both are put in lower case.
pub fn le_ignoring_case(a: &str, b: &str) -> (r: bool)
    ensures
        r == text_le(lower_of(a@), lower_of(b@)),
{
    let la = lowercase(a);
    let lb = lowercase(b);
    let ca = chars_of(la.as_str());
    let cb = chars_of(lb.as_str());
    text_le_exec(&ca, &cb)
}

/// The strings of `v` ordered by their lower-case text; strings whose
/// lower-case texts are equal keep their order.
pub fn sort_ignoring_case(v: Vec<String>) -> (r: Vec<String>)
    ensures
        sorted_ignoring_case(texts(r@)),
        texts(r@).to_multiset() == texts(v@).to_multiset(),
        forall|key: Seq<char>| #[trigger]
            with_lower(texts(r@), key) == with_lower(texts(v@), key),
{
    let mut r: Vec<String> = Vec::new();
    let mut i: usize = 0;
    assert(texts(r@) == texts(v@.take(0)));
    while i < v.len()
        invariant
            i <= v@.len(),
            sorted_ignoring_case(texts(r@)),
            texts(r@).to_multiset() == texts(v@.take(i as int)).to_multiset(),
            forall|key: Seq<char>| #[trigger]
                with_lower(texts(r@), key) == with_lower(texts(v@.take(i as int)), key),
        decreases v@.len() - i,
    {
        let x = v[i].clone();
        let mut j: usize = r.len();
        while j > 0 && !le_ignoring_case(r[j - 1].as_str(), x.as_str())
            invariant
                j <= r@.len(),
                forall|m: int|
                    j <= m < r@.len() ==> text_le(lower_of(x@), lower_of(#[trigger] r@[m]@)),
                forall|m: int|
                    j <= m < r@.len() ==> !text_le(lower_of(#[trigger] r@[m]@), lower_of(x@)),
            decreases j,
        {
            proof {
                lemma_text_le_total(lower_of(r@[j - 1]@), lower_of(x@));
            }
            j -= 1;
        }
        let ghost old_r = r@;
        proof {
            if j > 0 {
                assert forall|m: int| 0 <= m < j implies text_le(
                    lower_of(#[trigger] old_r[m]@),
                    lower_of(x@),
                ) by {
                    if m < j - 1 {
                        assert(texts(old_r)[m] == old_r[m]@);
                        assert(texts(old_r)[j - 1] == old_r[j - 1]@);
                        lemma_text_le_transitive(
                            lower_of(old_r[m]@),
                            lower_of(old_r[j - 1]@),
                            lower_of(x@),
                        );
                    }
                }
            }
        }
        r.insert(j, x);
        proof {
            assert(texts(r@) == texts(old_r).insert(j as int, x@));
            vstd::seq_lib::to_multiset_insert(texts(old_r), j as int, x@);
            assert(v@.take(i + 1) == v@.take(i as int).push(v@[i as int]));
            assert(texts(v@.take(i + 1)) == texts(v@.take(i as int)).push(v@[i as int]@));
            vstd::seq_lib::to_multiset_build(texts(v@.take(i as int)), v@[i as int]@);
            assert forall|m: int| j <= m < old_r.len() implies lower_of(
                #[trigger] texts(old_r)[m],
            ) != lower_of(x@) by {
                assert(texts(old_r)[m] == old_r[m]@);
                lemma_text_le_reflexive(lower_of(x@));
            }
            assert forall|key: Seq<char>| #[trigger]
                with_lower(texts(r@), key) == with_lower(texts(v@.take(i + 1)), key) by {
                lemma_with_lower_insert(texts(old_r), j as int, x@, key);
                assert(texts(v@.take(i + 1)).drop_last() == texts(v@.take(i as int)));
                assert(texts(v@.take(i + 1)).last() == x@);
            }
            assert forall|a: int, b: int| 0 <= a < b < r@.len() implies text_le(
                lower_of(#[trigger] texts(r@)[a]),
                lower_of(#[trigger] texts(r@)[b]),
            ) by {
                let t = texts(old_r);
                if b < j {
                    assert(t[a] == texts(r@)[a] && t[b] == texts(r@)[b]);
                } else if a > j {
                    assert(t[a - 1] == texts(r@)[a] && t[b - 1] == texts(r@)[b]);
                } else if a == j {
                    assert(text_le(lower_of(x@), lower_of(old_r[b - 1]@)));
                } else if b == j {
                    assert(text_le(lower_of(old_r[a]@), lower_of(x@)));
                } else {
                    assert(text_le(lower_of(old_r[a]@), lower_of(x@)));
                    assert(text_le(lower_of(x@), lower_of(old_r[b - 1]@)));
                    lemma_text_le_transitive(
                        lower_of(old_r[a]@),
                        lower_of(x@),
                        lower_of(old_r[b - 1]@),
                    );
                }
            }
        }
        i += 1;
    }
    assert(v@.take(v@.len() as int) == v@);
    r
}

/// An entry of the directory in which a path is being completed: its file
/// name, its path as shown, and its kind.
pub struct PathEntry {
    pub name: String,
    pub path: String,
    pub is_dir: bool,
    pub is_file: bool,
}

/// `text` begins with `prefix`.
pub open spec fn starts_with_text(text: Seq<char>, prefix: Seq<char>) -> bool {
    prefix.len() <= text.len() && text.subrange(0, prefix.len() as int) == prefix
}

/// `text` ends with `suffix`.
pub open spec fn ends_with_text(text: Seq<char>, suffix: Seq<char>) -> bool {
    suffix.len() <= text.len() && text.subrange(text.len() - suffix.len(), text.len() as int)
        == suffix
}

/// How an entry is suggested: its path, and a directory's with a trailing
/// separator.
pub open spec fn shown_as(e: PathEntry, separator: Seq<char>) -> Seq<char> {
    if e.is_dir && !ends_with_text(e.path@, separator) {
        e.path@ + separator
    } else {
        e.path@
    }
}

/// The suggestions, in the entries' order, for a partial file name: the
/// entries whose name begins with it and whose kind is offered.
pub open spec fn offered(
    kinds: (bool, bool),
    partial: Seq<char>,
    entries: Seq<PathEntry>,
    separator: Seq<char>,
) -> Seq<Seq<char>>
    decreases entries.len(),
{
    if entries.len() == 0 {
        seq![]
    } else {
        let e = entries.last();
        let rest = offered(kinds, partial, entries.drop_last(), separator);
        if starts_with_text(e.name@, partial) && (kinds.0 || !e.is_dir) && (kinds.1 || !e.is_file) {
            rest.push(shown_as(e, separator))
        } else {
            rest
        }
    }
}

/// Whether `text` begins with `prefix`.
pub fn starts_with(text: &str, prefix: &str) -> (r: bool)
    ensures
        r == starts_with_text(text@, prefix@),
{
    let t = chars_of(text);
    let p = chars_of(prefix);
    if p.len() > t.len() {
        return false;
    }
    let mut i: usize = 0;
    while i < p.len()
        invariant
            t@ == text@,
            p@ == prefix@,
            p@.len() <= t@.len(),
            i <= p@.len(),
            forall|k: int| 0 <= k < i ==> t@[k] == p@[k],
        decreases p@.len() - i,
    {
        if t[i] != p[i] {
            assert(text@.subrange(0, prefix@.len() as int)[i as int] == t@[i as int]);
            return false;
        }
        i += 1;
    }
    assert(text@.subrange(0, prefix@.len() as int) == prefix@);
    true
}

/// Whether `text` ends with `suffix`.
pub fn ends_with(text: &str, suffix: &str) -> (r: bool)
    ensures
        r == ends_with_text(text@, suffix@),
{
    let t = chars_of(text);
    let p = chars_of(suffix);
    if p.len() > t.len() {
        return false;
    }
    let tl = t.len();
    let start = tl - p.len();
    let mut i: usize = 0;
    while i < p.len()
        invariant
            t@ == text@,
            p@ == suffix@,
            tl == t@.len(),
            start == t@.len() - p@.len(),
            i <= p@.len(),
            forall|k: int| 0 <= k < i ==> t@[start + k] == p@[k],
        decreases p@.len() - i,
    {
        if t[start + i] != p[i] {
            assert(text@.subrange(start as int, text@.len() as int)[i as int] == t@[start + i]);
            return false;
        }
        i += 1;
    }
    assert(text@.subrange(start as int, text@.len() as int) == suffix@);
    true
}

impl FileSystemAutocomplete {
    /// The suggestions for a partial file name among the entries of the
    /// directory being completed in, ordered by their lower-case text;
    /// suggestions whose lower-case texts are equal keep the entries' order.
    pub fn suggestions(&self, partial_name: &str, entries: &Vec<PathEntry>, separator: &str) -> (r:
        Vec<String>)
        ensures
            sorted_ignoring_case(texts(r@)),
            texts(r@).to_multiset() == offered(
                self@,
                partial_name@,
                entries@,
                separator@,
            ).to_multiset(),
            forall|key: Seq<char>| #[trigger]
                with_lower(texts(r@), key) == with_lower(
                    offered(self@, partial_name@, entries@, separator@),
                    key,
                ),
    {
        let mut shown: Vec<String> = Vec::new();
        let mut i: usize = 0;
        while i < entries.len()
            invariant
                i <= entries@.len(),
                texts(shown@) == offered(
                    self@,
                    partial_name@,
                    entries@.take(i as int),
                    separator@,
                ),
            decreases entries@.len() - i,
        {
            assert(entries@.take(i + 1).drop_last() == entries@.take(i as int));
            let e = &entries[i];
            if starts_with(e.name.as_str(), partial_name) && self.accepts(e.is_dir, e.is_file) {
                let path = e.path.clone();
                let display = if e.is_dir && !ends_with(e.path.as_str(), separator) {
                    path.concat(separator)
                } else {
                    path
                };
                let ghost before = shown@;
                shown.push(display);
                assert(texts(shown@) == texts(before).push(display@));
            }
            i += 1;
        }
        assert(entries@.take(entries@.len() as int) == entries@);
        sort_ignoring_case(shown)
    }
}

} // verus!
