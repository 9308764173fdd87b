//! Schema file names: `AWS::EC2::Instance` is described by
//! `aws_ec2_instance.json`.

use vstd::prelude::*;

verus! {

/// The parts of `s[start..]` as `str::split("::")` yields them, scanning
/// from position `i` (no separator starts in `s[start..i]`).
pub open spec fn split_from(s: Seq<char>, start: int, i: int) -> Seq<Seq<char>>
    decreases s.len() - i,
    when 0 <= start <= i <= s.len()
{
    if i >= s.len() {
        seq![s.subrange(start, s.len() as int)]
    } else if i + 1 < s.len() && s[i] == ':' && s[i + 1] == ':' {
        seq![s.subrange(start, i)] + split_from(s, i + 2, i + 2)
    } else {
        split_from(s, start, i + 1)
    }
}

/// The parts of `s` between the leftmost non-overlapping occurrences of
/// `::`, as `str::split("::")` yields them.
pub open spec fn split_parts(s: Seq<char>) -> Seq<Seq<char>> {
    split_from(s, 0, 0)
}

/// `parts` joined with `sep` between consecutive parts.
pub open spec fn join_with(parts: Seq<Seq<char>>, sep: Seq<char>) -> Seq<char>
    decreases parts.len(),
{
    if parts.len() == 0 {
        Seq::empty()
    } else if parts.len() == 1 {
        parts[0]
    } else {
        join_with(parts.drop_last(), sep) + sep + parts.last()
    }
}

/// What `str::to_lowercase` returns for `s` (lowercase as Unicode defines
/// it).
pub uninterp spec fn lowercase(s: Seq<char>) -> Seq<char>;

/// No character of `s` is an ASCII capital letter.
pub open spec fn no_ascii_upper(s: Seq<char>) -> bool {
    forall|i: int| 0 <= i < s.len() ==> !('A' <= #[trigger] s[i] <= 'Z')
}

/// No two adjacent characters of `s` are both `:`.
pub open spec fn no_double_colon(s: Seq<char>) -> bool {
    forall|i: int| 0 <= i && i + 1 < s.len() ==> !(#[trigger] s[i] == ':' && s[i + 1] == ':')
}

/// `str::to_lowercase`. As std documents it, every cased character is
/// replaced by its lowercase mapping (ASCII capitals by their lowercase
/// letters) and every character without case, such as `:`, stays as it
/// is; so the result holds no ASCII capital, and it has two adjacent `:`
/// only where `s` has.
#[verifier::external_body]
fn to_lowercase(s: &str) -> (r: String)
    ensures
        r@ == lowercase(s@),
        no_ascii_upper(r@),
        no_double_colon(s@) ==> no_double_colon(r@),
{
    s.to_lowercase()
}

/// The schema file name for a resource type: its `::`-separated parts,
/// each lowercased, joined with `_`, followed by `.json`.
pub open spec fn schema_file_name(typ: Seq<char>) -> Seq<char> {
    join_with(split_parts(typ).map_values(|p: Seq<char>| lowercase(p)), "_"@) + ".json"@
}

/// The views of a vector of strings.
pub open spec fn views(v: Seq<String>) -> Seq<Seq<char>> {
    v.map_values(|s: String| s@)
}

/// Splits a resource type name on `::`.
pub fn split_type_name(typ: &str) -> (r: Vec<String>)
    ensures
        views(r@) == split_parts(typ@),
{
    let ghost s = typ@;
    let n = typ.unicode_len();
    let mut parts: Vec<String> = Vec::new();
    let mut start: usize = 0;
    let mut i: usize = 0;
    while i < n
        invariant
            s == typ@,
            n == s.len(),
            start <= i <= n,
            views(parts@) + split_from(s, start as int, i as int) == split_parts(s),
        decreases n - i,
    {
        if i + 1 < n && typ.get_char(i) == ':' && typ.get_char(i + 1) == ':' {
            let part = typ.substring_char(start, i).to_owned();
            proof {
                assert(views(parts@.push(part)) =~= views(parts@).push(part@));
                assert(views(parts@).push(part@) + split_from(s, i + 2, i + 2) =~= views(parts@)
                    + split_from(s, start as int, i as int));
            }
            parts.push(part);
            i = i + 2;
            start = i;
        } else {
            i = i + 1;
        }
    }
    let last = typ.substring_char(start, n).to_owned();
    proof {
        assert(views(parts@.push(last)) =~= views(parts@).push(last@));
        assert(views(parts@).push(last@) =~= views(parts@) + split_from(s, start as int, i as int));
    }
    parts.push(last);
    parts
}

/// Joins already lowercased parts with `_` and appends `.json`.
pub fn filename_from_parts(parts: &Vec<String>) -> (r: String)
    ensures
        r@ == join_with(views(parts@), "_"@) + ".json"@,
{
    let mut out = String::new();
    let mut i: usize = 0;
    while i < parts.len()
        invariant
            i <= parts@.len(),
            out@ == join_with(views(parts@).take(i as int), "_"@),
        decreases parts.len() - i,
    {
        proof {
            let t = views(parts@).take(i + 1);
            assert(t.drop_last() =~= views(parts@).take(i as int));
            assert(t.last() == parts@[i as int]@);
        }
        if i > 0 {
            out.append("_");
        }
        out.append(parts[i].as_str());
        proof {
            if i == 0 {
                assert(out@ =~= views(parts@).take(1)[0]);
            }
        }
        i = i + 1;
    }
    proof {
        assert(views(parts@).take(i as int) =~= views(parts@));
    }
    out.append(".json");
    out
}

/// The schema file name for a resource type name.
pub fn type_to_filename(typ: &str) -> (r: String)
    ensures
        r@ == schema_file_name(typ@),
        is_clean_file_name(r@),
{
    let parts = split_type_name(typ);
    proof {
        lemma_split_parts_clean(typ@, 0, 0);
        assert forall|j: int| 0 <= j < parts@.len() implies no_double_colon(#[trigger] parts@[j]@) by {
            assert(views(parts@)[j] == parts@[j]@);
        }
    }
    let mut lowered: Vec<String> = Vec::new();
    let mut i: usize = 0;
    while i < parts.len()
        invariant
            i <= parts@.len(),
            lowered@.len() == i,
            forall|j: int| 0 <= j < i ==> (#[trigger] lowered@[j])@ == lowercase(parts@[j]@),
            forall|j: int| 0 <= j < parts@.len() ==> no_double_colon(#[trigger] parts@[j]@),
            forall|j: int|
                0 <= j < i ==> no_ascii_upper(#[trigger] lowered@[j]@) && no_double_colon(lowered@[j]@),
        decreases parts.len() - i,
    {
        lowered.push(to_lowercase(parts[i].as_str()));
        i = i + 1;
    }
    proof {
        assert(views(lowered@) =~= split_parts(typ@).map_values(|p: Seq<char>| lowercase(p)));
        lemma_join_clean(views(lowered@));
    }
    filename_from_parts(&lowered)
}

/// Splitting `p + b` from inside `b` goes as splitting `b` alone.
proof fn lemma_split_suffix(p: Seq<char>, b: Seq<char>, start: int, i: int)
    requires
        0 <= start <= i <= b.len(),
    ensures
        split_from(p + b, p.len() + start, p.len() + i) == split_from(b, start, i),
    decreases b.len() - i,
{
    let s = p + b;
    let n = p.len() as int;
    if i >= b.len() {
        assert(s.subrange(n + start, s.len() as int) =~= b.subrange(start, b.len() as int));
    } else {
        assert(s[n + i] == b[i]);
        if i + 1 < b.len() {
            assert(s[n + i + 1] == b[i + 1]);
        }
        if i + 1 < b.len() && b[i] == ':' && b[i + 1] == ':' {
            lemma_split_suffix(p, b, i + 2, i + 2);
            assert(s.subrange(n + start, n + i) =~= b.subrange(start, i));
        } else {
            lemma_split_suffix(p, b, start, i + 1);
        }
    }
}

/// Scanning a first part without `:` reaches its end unchanged.
proof fn lemma_split_first_part(a: Seq<char>, b: Seq<char>, i: int)
    requires
        0 <= i <= a.len(),
        forall|j: int| 0 <= j < a.len() ==> a[j] != ':',
    ensures
        split_from(a + "::"@ + b, 0, i) == seq![a] + split_parts(b),
    decreases a.len() - i,
{
    reveal_strlit("::");
    let s = a + "::"@ + b;
    let n = a.len() as int;
    if i < n {
        assert(s[i] == a[i]);
        lemma_split_first_part(a, b, i + 1);
    } else {
        assert(s[n] == ':' && s[n + 1] == ':');
        assert(s.subrange(0, n) =~= a);
        lemma_split_suffix(a + "::"@, b, 0, 0);
        assert(s =~= (a + "::"@) + b);
    }
}

/// Splitting always yields at least one part.
proof fn lemma_split_nonempty(s: Seq<char>, start: int, i: int)
    requires
        0 <= start <= i <= s.len(),
    ensures
        split_from(s, start, i).len() >= 1,
    decreases s.len() - i,
{
    if i < s.len() {
        if i + 1 < s.len() && s[i] == ':' && s[i + 1] == ':' {
            lemma_split_nonempty(s, i + 2, i + 2);
        } else {
            lemma_split_nonempty(s, start, i + 1);
        }
    }
}

/// Joining a first part with at least one more: the first part, the
/// separator, then the rest joined.
proof fn lemma_join_first(x: Seq<char>, rest: Seq<Seq<char>>, sep: Seq<char>)
    requires
        rest.len() >= 1,
    ensures
        join_with(seq![x] + rest, sep) == x + sep + join_with(rest, sep),
    decreases rest.len(),
{
    let all = seq![x] + rest;
    assert(all.len() >= 2);
    assert(all.last() == rest.last());
    if rest.len() == 1 {
        assert(all.drop_last() =~= seq![x]);
        assert(join_with(seq![x], sep) == x);
        assert(join_with(rest, sep) == rest[0]);
        assert(join_with(all, sep) == join_with(all.drop_last(), sep) + sep + all.last());
    } else {
        lemma_join_first(x, rest.drop_last(), sep);
        assert(all.drop_last() =~= seq![x] + rest.drop_last());
        assert(join_with(all, sep) == join_with(all.drop_last(), sep) + sep + all.last());
        assert(join_with(rest, sep) == join_with(rest.drop_last(), sep) + sep + rest.last());
        assert(x + sep + join_with(rest.drop_last(), sep) + sep + rest.last() =~= x + sep + (join_with(
            rest.drop_last(),
            sep,
        ) + sep + rest.last()));
    }
}

/// A type name whose first part `a` holds no `:` is described by the file
/// name of the rest, prefixed with `a` lowercased and `_`.
pub proof fn law_type_prefix(a: Seq<char>, b: Seq<char>)
    requires
        forall|j: int| 0 <= j < a.len() ==> a[j] != ':',
    ensures
        schema_file_name(a + "::"@ + b) == lowercase(a) + "_"@ + schema_file_name(b),
{
    let f = |p: Seq<char>| lowercase(p);
    lemma_split_first_part(a, b, 0);
    lemma_split_nonempty(b, 0, 0);
    let rest = split_parts(b).map_values(f);
    assert((seq![a] + split_parts(b)).map_values(f) =~= seq![lowercase(a)] + rest);
    lemma_join_first(lowercase(a), rest, "_"@);
    assert(lowercase(a) + "_"@ + join_with(rest, "_"@) + ".json"@ =~= lowercase(a) + "_"@ + (join_with(
        rest,
        "_"@,
    ) + ".json"@));
}

/// A schema file name as `type_to_filename` makes it: no ASCII capital, no
/// `::`, and ending in `.json`.
pub open spec fn is_clean_file_name(f: Seq<char>) -> bool {
    &&& no_ascii_upper(f)
    &&& no_double_colon(f)
    &&& f.len() >= 5
    &&& f.subrange(f.len() - 5, f.len() as int) == ".json"@
}

/// The parts that splitting yields hold no `::`, given that none starts in
/// the scanned stretch `s[start..i]`.
proof fn lemma_split_parts_clean(s: Seq<char>, start: int, i: int)
    requires
        0 <= start <= i <= s.len(),
        forall|j: int| start <= j < i && j + 1 < s.len() ==> !(#[trigger] s[j] == ':' && s[j + 1] == ':'),
    ensures
        forall|k: int| 0 <= k < split_from(s, start, i).len() ==> no_double_colon(
            #[trigger] split_from(s, start, i)[k],
        ),
    decreases s.len() - i,
{
    if i >= s.len() {
        let p = s.subrange(start, s.len() as int);
        assert forall|j: int| 0 <= j && j + 1 < p.len() implies !(#[trigger] p[j] == ':' && p[j + 1] == ':') by {
            assert(p[j] == s[start + j] && p[j + 1] == s[start + j + 1]);
        }
        assert(no_double_colon(p));
        assert(split_from(s, start, i) == seq![p]);
        assert(split_from(s, start, i)[0] == p);
    } else if i + 1 < s.len() && s[i] == ':' && s[i + 1] == ':' {
        let p = s.subrange(start, i);
        assert forall|j: int| 0 <= j && j + 1 < p.len() implies !(#[trigger] p[j] == ':' && p[j + 1] == ':') by {
            assert(p[j] == s[start + j] && p[j + 1] == s[start + j + 1]);
        }
        assert(no_double_colon(p));
        lemma_split_parts_clean(s, i + 2, i + 2);
        let rest = split_from(s, i + 2, i + 2);
        assert(split_from(s, start, i) == seq![p] + rest);
        assert forall|k: int| 0 <= k < split_from(s, start, i).len() implies no_double_colon(
            #[trigger] split_from(s, start, i)[k],
        ) by {
            if k > 0 {
                assert(split_from(s, start, i)[k] == rest[k - 1]);
            } else {
                assert(split_from(s, start, i)[0] == p);
            }
        }
    } else {
        lemma_split_parts_clean(s, start, i + 1);
        assert(split_from(s, start, i) == split_from(s, start, i + 1));
    }
}

/// Joining with `_` keeps two strings apart: neither gains a capital nor a
/// `::`.
proof fn lemma_concat_clean(a: Seq<char>, b: Seq<char>)
    requires
        no_ascii_upper(a),
        no_ascii_upper(b),
        no_double_colon(a),
        no_double_colon(b),
        a.len() == 0 || b.len() == 0 || !(a.last() == ':' && b[0] == ':'),
    ensures
        no_ascii_upper(a + b),
        no_double_colon(a + b),
{
    let c = a + b;
    assert forall|i: int| 0 <= i < c.len() implies !('A' <= #[trigger] c[i] <= 'Z') by {
        if i < a.len() {
            assert(c[i] == a[i]);
        } else {
            assert(c[i] == b[i - a.len()]);
        }
    }
    assert forall|i: int| 0 <= i && i + 1 < c.len() implies !(#[trigger] c[i] == ':' && c[i + 1] == ':') by {
        if i + 1 < a.len() {
            assert(c[i] == a[i] && c[i + 1] == a[i + 1]);
        } else if i + 1 == a.len() {
            assert(c[i] == a.last() && c[i + 1] == b[0]);
        } else {
            assert(c[i] == b[i - a.len()] && c[i + 1] == b[i + 1 - a.len()]);
        }
    }
}

/// Parts free of capitals and `::`, joined with `_` and followed by
/// `.json`, make a clean file name.
proof fn lemma_join_clean(ps: Seq<Seq<char>>)
    requires
        forall|k: int| 0 <= k < ps.len() ==> no_ascii_upper(#[trigger] ps[k]) && no_double_colon(ps[k]),
    ensures
        no_ascii_upper(join_with(ps, "_"@)),
        no_double_colon(join_with(ps, "_"@)),
        is_clean_file_name(join_with(ps, "_"@) + ".json"@),
    decreases ps.len(),
{
    reveal_strlit("_");
    reveal_strlit(".json");
    let j = join_with(ps, "_"@);
    if ps.len() > 1 {
        lemma_join_clean(ps.drop_last());
        let front = join_with(ps.drop_last(), "_"@);
        assert(ps.last() == ps[ps.len() - 1]);
        lemma_concat_clean(front, "_"@);
        lemma_concat_clean(front + "_"@, ps.last());
    } else if ps.len() == 1 {
        assert(j == ps[0]);
    }
    lemma_concat_clean(j, ".json"@);
    let f = j + ".json"@;
    assert(f.subrange(f.len() - 5, f.len() as int) =~= ".json"@);
}

} // verus!
