//! The path query language over value trees: descending by key or by element
//! name, comma-separated field projection, wildcard expansion over arrays, and
//! the list of every path that a tree offers.
use vstd::prelude::*;
use crate::text::{
    contains_char, lemma_runs_append, lemma_runs_single, runs, same_text, split_runs, trim, trimmed, views, Delim,
};
use crate::tree::{
    child, child_of, find_by_name, find_named, get_member, items_view, lemma_view_parts, lookup,
    members_view, name_of, name_text, name_value, opt_view, Json, Member, Node,
};

verus! {

/// `*` and `all` stand for every element of an array.
pub open spec fn is_wildcard_text(s: Seq<char>) -> bool {
    s == "*"@ || s == "all"@
}

/// Whether a path segment is a wildcard.
pub fn is_wildcard(s: &str) -> (r: bool)
    ensures
        r == is_wildcard_text(s@),
{
    same_text(s, "*") || same_text(s, "all")
}

/// The pieces of a comma-separated list, trimmed, with the empty ones left out.
pub open spec fn clean_names(ps: Seq<Seq<char>>) -> Seq<Seq<char>>
    decreases ps.len(),
{
    if ps.len() == 0 {
        seq![]
    } else {
        let acc = clean_names(ps.drop_last());
        let t = trimmed(ps.last());
        if t.len() > 0 {
            acc.push(t)
        } else {
            acc
        }
    }
}

pub open spec fn field_names(raw: Seq<char>) -> Seq<Seq<char>> {
    clean_names(runs(raw, Delim::Char(',')))
}

/// The named fields found one step below `j`, each once, in the order asked.
pub open spec fn collect_fields(j: Json, names: Seq<Seq<char>>) -> Seq<(Seq<char>, Json)>
    decreases names.len(),
{
    if names.len() == 0 {
        seq![]
    } else {
        let acc = collect_fields(j, names.drop_last());
        let n = names.last();
        match child(j, n) {
            Some(v) => if lookup(acc, n) is Some {
                acc
            } else {
                acc.push((n, v))
            },
            None => acc,
        }
    }
}

/// A comma-separated projection: an object of the fields found, or nothing when none is.
pub open spec fn comma_fields(j: Json, raw: Seq<char>) -> Option<Json> {
    let fs = collect_fields(j, field_names(raw));
    if fs.len() == 0 {
        None
    } else {
        Some(Json::Object(fs))
    }
}

/// Tags a wildcard result with the name of the element it came from.
pub open spec fn tagged_with_name(r: Json, name: Option<Json>) -> Json {
    match name {
        Some(n) => match r {
            Json::Object(fs) => if lookup(fs, "name"@) is Some {
                r
            } else {
                Json::Object(seq![("name"@, n)] + fs)
            },
            _ => r,
        },
        None => r,
    }
}

/// What a path, as a sequence of segments, addresses in `j`.
pub open spec fn resolve(j: Json, segs: Seq<Seq<char>>) -> Option<Json>
    decreases segs.len(), 0int,
{
    if segs.len() == 0 {
        Some(j)
    } else {
        let cur = segs[0];
        let rest = segs.drop_first();
        if rest.len() == 0 && cur.contains(',') {
            comma_fields(j, cur)
        } else if is_wildcard_text(cur) {
            match j {
                Json::Array(items) => {
                    let rs = expand(items, rest);
                    if rs.len() == 0 {
                        None
                    } else {
                        Some(Json::Array(rs))
                    }
                },
                _ => None,
            }
        } else {
            match child(j, cur) {
                Some(c) => if rest.len() == 0 {
                    match j {
                        Json::Object(_) => Some(Json::Object(seq![(cur, c)])),
                        _ => Some(c),
                    }
                } else {
                    resolve(c, rest)
                },
                None => None,
            }
        }
    }
}

/// The results of the rest of a path on each element, in order, those that
/// resolve to nothing left out.
pub open spec fn expand(items: Seq<Json>, rest: Seq<Seq<char>>) -> Seq<Json>
    decreases rest.len(), items.len() + 1,
{
    if items.len() == 0 {
        seq![]
    } else {
        let acc = expand(items.drop_last(), rest);
        let it = items.last();
        if rest.len() == 0 {
            acc.push(it)
        } else {
            match resolve(it, rest) {
                Some(r) => acc.push(tagged_with_name(r, name_value(it))),
                None => acc,
            }
        }
    }
}

/// The segments of a request path: the non-empty pieces between slashes.
pub open spec fn path_segments(path: Seq<char>) -> Seq<Seq<char>> {
    runs(path, Delim::Char('/'))
}

/// A copy of the node one step below `value`.
fn navigate(value: &Node, key: &str) -> (r: Option<Node>)
    ensures
        opt_view(r) == child(value@, key@),
{
    match child_of(value, key) {
        Some(c) => Some(c.clone()),
        None => None,
    }
}

/// Tags a wildcard result with the name of the element it came from.
fn attach_name(value: Node, name: Option<Node>) -> (r: Node)
    ensures
        r@ == tagged_with_name(value@, opt_view(name)),
{
    proof {
        lemma_view_parts(value);
    }
    match name {
        Some(n) => match value {
            Node::Object(fields) => {
                if get_member(&fields, "name").is_some() {
                    return Node::Object(fields);
                }
                let mut out: Vec<Member> = Vec::new();
                out.push(Member { key: "name".to_owned(), value: n });
                let mut i: usize = 0;
                while i < fields.len()
                    invariant
                        i <= fields@.len(),
                        members_view(out@) == seq![("name"@, n@)] + members_view(fields@).take(
                            i as int,
                        ),
                    decreases fields@.len() - i,
                {
                    let ghost before = out@;
                    out.push(Member { key: fields[i].key.clone(), value: fields[i].value.clone() });
                    assert(members_view(out@) =~= members_view(before).push(
                        members_view(fields@)[i as int],
                    ));
                    i = i + 1;
                    assert(members_view(out@) =~= seq![("name"@, n@)] + members_view(
                        fields@,
                    ).take(i as int));
                }
                assert(members_view(fields@).take(i as int) =~= members_view(fields@));
                let r = Node::Object(out);
                proof {
                    lemma_view_parts(r);
                }
                r
            },
            other => other,
        },
        None => value,
    }
}

/// The comma-separated fields of `raw` found one step below `value`.
fn resolve_comma_fields(value: &Node, raw: &str) -> (r: Option<Node>)
    ensures
        opt_view(r) == comma_fields(value@, raw@),
{
    let pieces = split_runs(raw, Delim::Char(','));
    let ghost ps = views(pieces@);
    let mut names: Vec<String> = Vec::new();
    let mut i: usize = 0;
    while i < pieces.len()
        invariant
            i <= pieces@.len(),
            ps == views(pieces@),
            ps == runs(raw@, Delim::Char(',')),
            views(names@) == clean_names(ps.take(i as int)),
        decreases pieces@.len() - i,
    {
        assert(ps.take(i + 1).drop_last() =~= ps.take(i as int));
        let t = trim(pieces[i].as_str());
        if t.unicode_len() > 0 {
            let ghost before = names@;
            names.push(t.to_owned());
            assert(views(names@) =~= views(before).push(t@));
        }
        i = i + 1;
    }
    assert(ps.take(i as int) =~= ps);
    let ghost fnames = views(names@);
    let mut out: Vec<Member> = Vec::new();
    let mut k: usize = 0;
    while k < names.len()
        invariant
            k <= names@.len(),
            fnames == views(names@),
            fnames == field_names(raw@),
            members_view(out@) == collect_fields(value@, fnames.take(k as int)),
        decreases names@.len() - k,
    {
        assert(fnames.take(k + 1).drop_last() =~= fnames.take(k as int));
        assert(fnames.take(k + 1).last() == names@[k as int]@);
        match navigate(value, names[k].as_str()) {
            Some(v) => {
                if get_member(&out, names[k].as_str()).is_none() {
                    let ghost before = out@;
                    out.push(Member { key: names[k].clone(), value: v });
                    assert(members_view(out@) =~= members_view(before).push(
                        (names@[k as int]@, v@),
                    ));
                }
            },
            None => {},
        }
        k = k + 1;
    }
    assert(fnames.take(k as int) =~= fnames);
    if out.len() == 0 {
        None
    } else {
        let r = Node::Object(out);
        proof {
            lemma_view_parts(r);
        }
        Some(r)
    }
}

/// Resolves the segments `segments[from..]` against `value`.
fn resolve_request(value: &Node, segments: &Vec<String>, from: usize) -> (r: Option<Node>)
    requires
        from <= segments@.len(),
    ensures
        opt_view(r) == resolve(value@, views(segments@).skip(from as int)),
    decreases segments@.len() - from,
{
    let ghost segs = views(segments@).skip(from as int);
    if from == segments.len() {
        return Some(value.clone());
    }
    let current = segments[from].as_str();
    let next = from + 1;
    let is_last = next == segments.len();
    assert(segs[0] == current@);
    assert(segs.drop_first() =~= views(segments@).skip(from + 1));
    if is_last && contains_char(current, ',') {
        return resolve_comma_fields(value, current);
    }
    if is_wildcard(current) {
        proof {
            lemma_view_parts(*value);
        }
        match value {
            Node::Array(items) => {
                let ghost iv = items_view(items@);
                let ghost rest = segs.drop_first();
                let mut results: Vec<Node> = Vec::new();
                let mut i: usize = 0;
                while i < items.len()
                    invariant
                        i <= items@.len(),
                        from < segments@.len(),
                        is_last == (from + 1 == segments@.len()),
                        next == from + 1,
                        iv == items_view(items@),
                        rest == views(segments@).skip(from + 1),
                        items_view(results@) == expand(iv.take(i as int), rest),
                    decreases items@.len() - i,
                {
                    assert(iv.take(i + 1).drop_last() =~= iv.take(i as int));
                    assert(iv.take(i + 1).last() == items@[i as int]@);
                    let ghost before = results@;
                    if is_last {
                        results.push(items[i].clone());
                        assert(items_view(results@) =~= items_view(before).push(items@[i as int]@));
                    } else {
                        match resolve_request(&items[i], segments, next) {
                            Some(resolved) => {
                                let name = match name_member(&items[i]) {
                                    Some(n) => Some(n.clone()),
                                    None => None,
                                };
                                let tagged = attach_name(resolved, name);
                                results.push(tagged);
                                assert(items_view(results@) =~= items_view(before).push(tagged@));
                            },
                            None => {},
                        }
                    }
                    i = i + 1;
                }
                assert(iv.take(i as int) =~= iv);
                if results.len() == 0 {
                    return None;
                }
                let r = Node::Array(results);
                proof {
                    lemma_view_parts(r);
                }
                return Some(r);
            },
            _ => {
                return None;
            },
        }
    }
    proof {
        lemma_view_parts(*value);
    }
    match child_of(value, current) {
        Some(c) => {
            if is_last {
                match value {
                    Node::Object(_) => {
                        let mut out: Vec<Member> = Vec::new();
                        out.push(Member { key: current.to_owned(), value: c.clone() });
                        let r = Node::Object(out);
                        proof {
                            lemma_view_parts(r);
                            assert(members_view(out@) =~= seq![(current@, c@)]);
                        }
                        Some(r)
                    },
                    _ => Some(c.clone()),
                }
            } else {
                resolve_request(c, segments, next)
            }
        },
        None => None,
    }
}

/// The `name` member of a node, of whatever kind.
fn name_member(n: &Node) -> (r: Option<&Node>)
    ensures
        match r {
            Some(v) => name_value(n@) == Some(v@),
            None => name_value(n@) is None,
        },
{
    proof {
        lemma_view_parts(*n);
    }
    match n {
        Node::Object(fs) => get_member(fs, "name"),
        _ => None,
    }
}

/// What a request path addresses in `tree`.
pub fn resolve_path(tree: &Node, path: &str) -> (r: Option<Node>)
    ensures
        opt_view(r) == resolve(tree@, path_segments(path@)),
{
    let segments = split_runs(path, Delim::Char('/'));
    assert(views(segments@).skip(0) =~= views(segments@));
    resolve_request(tree, &segments, 0)
}

/// The answer to a request path: what it addresses, or the path echoed back
/// with its leading slash when it addresses nothing.
#[derive(Debug)]
pub enum Answer {
    Found(Node),
    NotFound { path: String },
}

/// `prefix/key`.
pub open spec fn join(prefix: Seq<char>, key: Seq<char>) -> Seq<char> {
    prefix + "/"@ + key
}

fn join_path(prefix: &str, key: &str) -> (r: String)
    ensures
        r@ == join(prefix@, key@),
{
    let mut s = prefix.to_owned();
    s.append("/");
    s.append(key);
    s
}

/// What a request path answers: the whole tree for `/stats`, else what the path addresses.
pub open spec fn answer(tree: Json, path: Seq<char>) -> Option<Json> {
    if path == "/stats"@ {
        Some(tree)
    } else {
        resolve(tree, path_segments(path))
    }
}

/// Answers a request path, such as `/cores/*/usage`.
pub fn query(tree: &Node, path: &str) -> (r: Answer)
    ensures
        match r {
            Answer::Found(n) => answer(tree@, path@) == Some(n@),
            Answer::NotFound { path: p } => answer(tree@, path@) is None && p@ == path@,
        },
{
    if same_text(path, "/stats") {
        return Answer::Found(tree.clone());
    }
    match resolve_path(tree, path) {
        Some(n) => Answer::Found(n),
        None => Answer::NotFound { path: path.to_owned() },
    }
}

/// Every path that an object tree offers below `prefix`: each member, the
/// members of nested objects, and for each named element of an array its path
/// and the paths of the fields of the element that its name addresses.
pub open spec fn endpoints(j: Json, prefix: Seq<char>) -> Seq<Seq<char>>
    decreases j,
{
    match j {
        Json::Object(fs) => member_paths(fs, prefix),
        _ => seq![],
    }
}

pub open spec fn member_paths(fs: Seq<(Seq<char>, Json)>, prefix: Seq<char>) -> Seq<Seq<char>>
    decreases fs,
{
    if fs.len() == 0 {
        seq![]
    } else {
        let key = fs.last().0;
        let c = fs.last().1;
        let path = join(prefix, key);
        member_paths(fs.drop_last(), prefix) + seq![path] + match c {
            Json::Object(_) => endpoints(c, path),
            Json::Array(items) => item_paths(items, items, path),
            _ => seq![],
        }
    }
}

/// For each named element of `items`, its path and the paths of the fields of
/// the element that its name addresses in `all` (the first one bearing it).
pub open spec fn item_paths(all: Seq<Json>, items: Seq<Json>, path: Seq<char>) -> Seq<Seq<char>>
    decreases items.len(),
{
    if items.len() == 0 {
        seq![]
    } else {
        let acc = item_paths(all, items.drop_last(), path);
        match name_of(items.last()) {
            Some(n) => {
                let ip = join(path, n);
                acc + seq![ip] + match find_named(all, n) {
                    Some(Json::Object(fs)) => key_paths(fs, ip),
                    _ => seq![],
                }
            },
            None => acc,
        }
    }
}

/// The path of each field of an element.
pub open spec fn key_paths(fs: Seq<(Seq<char>, Json)>, ip: Seq<char>) -> Seq<Seq<char>>
    decreases fs.len(),
{
    if fs.len() == 0 {
        seq![]
    } else {
        key_paths(fs.drop_last(), ip).push(join(ip, fs.last().0))
    }
}

/// Appends to `out` every path that `value` offers below `prefix`.
#[verifier::loop_isolation(false)]
pub fn enumerate_endpoints(value: &Node, prefix: &str, out: &mut Vec<String>)
    ensures
        views(final(out)@) == views(old(out)@) + endpoints(value@, prefix@),
    decreases value,
{
    proof {
        lemma_view_parts(*value);
    }
    let fields = match value {
        Node::Object(fs) => fs,
        _ => {
            assert(views(out@) =~= views(out@) + endpoints(value@, prefix@));
            return;
        },
    };
    let ghost fv = members_view(fields@);
    let ghost start = views(out@);
    let mut i: usize = 0;
    while i < fields.len()
        invariant
            i <= fields@.len(),
            fv == members_view(fields@),
            *value == Node::Object(*fields),
            views(out@) == start + member_paths(fv.take(i as int), prefix@),
        decreases fields@.len() - i,
    {
        assert(fv.take(i + 1).drop_last() =~= fv.take(i as int));
        assert(fv.take(i + 1).last() == fields@[i as int].member_view());
        let key = fields[i].key.as_str();
        let child = &fields[i].value;
        let path = join_path(prefix, key);
        let ghost before = views(out@);
        out.push(path.clone());
        assert(views(out@) =~= before + seq![path@]);
        proof {
            lemma_view_parts(*child);
        }
        match child {
            Node::Object(_) => {
                enumerate_endpoints(child, path.as_str(), out);
            },
            Node::Array(items) => {
                add_item_paths(items, path.as_str(), out);
            },
            _ => {},
        }
        assert(views(out@) =~= start + member_paths(fv.take(i + 1), prefix@));
        i = i + 1;
    }
    assert(fv.take(i as int) =~= fv);
}

/// The paths that the index lists.
pub open spec fn listed_paths(tree: Json) -> Seq<Seq<char>> {
    seq!["/stats"@] + endpoints(tree, seq![])
}

/// Appends the path of each named element of an array, and of the fields of
/// the element that its name addresses.
fn add_item_paths(items: &Vec<Node>, path: &str, out: &mut Vec<String>)
    ensures
        views(final(out)@) == views(old(out)@) + item_paths(
            items_view(items@),
            items_view(items@),
            path@,
        ),
{
    let ghost iv = items_view(items@);
    let ghost start = views(out@);
    let mut i: usize = 0;
    while i < items.len()
        invariant
            i <= items@.len(),
            iv == items_view(items@),
            views(out@) == start + item_paths(iv, iv.take(i as int), path@),
        decreases items@.len() - i,
    {
        assert(iv.take(i + 1).drop_last() =~= iv.take(i as int));
        assert(iv.take(i + 1).last() == items@[i as int]@);
        let ghost mid = views(out@);
        match name_text(&items[i]) {
            Some(name) => {
                let item_path = join_path(path, name.as_str());
                out.push(item_path.clone());
                assert(views(out@) =~= mid + seq![item_path@]);
                match find_by_name(items, name.as_str()) {
                    Some(target) => {
                        proof {
                            lemma_view_parts(*target);
                        }
                        match target {
                            Node::Object(fs) => {
                                add_key_paths(fs, item_path.as_str(), out);
                            },
                            _ => {},
                        }
                    },
                    None => {},
                }
            },
            None => {},
        }
        assert(views(out@) =~= start + item_paths(iv, iv.take(i + 1), path@));
        i = i + 1;
    }
    assert(iv.take(i as int) =~= iv);
}

/// Appends the path of each field of an element.
fn add_key_paths(fs: &Vec<Member>, item_path: &str, out: &mut Vec<String>)
    ensures
        views(final(out)@) == views(old(out)@) + key_paths(members_view(fs@), item_path@),
{
    let ghost fv = members_view(fs@);
    let ghost start = views(out@);
    let mut i: usize = 0;
    while i < fs.len()
        invariant
            i <= fs@.len(),
            fv == members_view(fs@),
            views(out@) == start + key_paths(fv.take(i as int), item_path@),
        decreases fs@.len() - i,
    {
        assert(fv.take(i + 1).drop_last() =~= fv.take(i as int));
        assert(fv.take(i + 1).last() == fs@[i as int].member_view());
        let p = join_path(item_path, fs[i].key.as_str());
        let ghost mid = views(out@);
        out.push(p);
        assert(views(out@) =~= mid.push(p@));
        assert(views(out@) =~= start + key_paths(fv.take(i + 1), item_path@));
        i = i + 1;
    }
    assert(fv.take(i as int) =~= fv);
}

/// The paths that the index lists: the full snapshot, then every path the tree offers.
pub fn list_endpoints(tree: &Node) -> (r: Vec<String>)
    ensures
        views(r@) == listed_paths(tree@),
{
    let mut out: Vec<String> = Vec::new();
    out.push("/stats".to_owned());
    let empty = String::new();
    enumerate_endpoints(tree, empty.as_str(), &mut out);
    assert(views(out@) =~= seq!["/stats"@] + endpoints(tree@, seq![]));
    out
}

/// A key or name that a path can address as it is: not empty, without `/`
/// or `,`, and not a wildcard.
pub open spec fn plain_segment(s: Seq<char>) -> bool {
    &&& s.len() > 0
    &&& !s.contains('/')
    &&& !s.contains(',')
    &&& !is_wildcard_text(s)
}

pub open spec fn unique_keys(fs: Seq<(Seq<char>, Json)>) -> bool {
    forall|a: int, b: int|
        0 <= a < fs.len() && 0 <= b < fs.len() && a != b ==> #[trigger] fs[a].0 != #[trigger] fs[b].0
}

/// A tree that the path grammar can address throughout: object keys are
/// unique plain segments, and array elements' names are plain segments.
pub open spec fn plain_tree(j: Json) -> bool
    decreases j,
{
    match j {
        Json::Object(fs) => unique_keys(fs) && forall|i: int|
            0 <= i < fs.len() ==> plain_segment(#[trigger] fs[i].0) && plain_tree(fs[i].1),
        Json::Array(items) => forall|i: int|
            0 <= i < items.len() ==> plain_tree(#[trigger] items[i]) && (name_of(items[i]) matches Some(
                n,
            ) ==> plain_segment(n)),
        _ => true,
    }
}

pub proof fn lemma_lookup_at(fs: Seq<(Seq<char>, Json)>, i: int)
    requires
        0 <= i < fs.len(),
        unique_keys(fs),
    ensures
        lookup(fs, fs[i].0) == Some(fs[i].1),
    decreases i,
{
    if i > 0 {
        assert(fs[0].0 != fs[i].0);
        let t = fs.drop_first();
        assert(t[i - 1] == fs[i]);
        assert forall|a: int, b: int|
            0 <= a < t.len() && 0 <= b < t.len() && a != b implies #[trigger] t[a].0
            != #[trigger] t[b].0 by {
            assert(t[a] == fs[a + 1] && t[b] == fs[b + 1]);
        }
        lemma_lookup_at(t, i - 1);
    }
}

pub proof fn lemma_lookup_some(fs: Seq<(Seq<char>, Json)>, i: int)
    requires
        0 <= i < fs.len(),
    ensures
        lookup(fs, fs[i].0) is Some,
    decreases i,
{
    if i > 0 && fs[0].0 != fs[i].0 {
        let t = fs.drop_first();
        assert(t[i - 1] == fs[i]);
        lemma_lookup_some(t, i - 1);
    }
}

pub proof fn lemma_find_some(items: Seq<Json>, i: int, n: Seq<char>)
    requires
        0 <= i < items.len(),
        name_of(items[i]) == Some(n),
    ensures
        exists|j: int| 0 <= j <= i && find_named(items, n) == Some(#[trigger] items[j]),
    decreases i,
{
    if name_of(items[0]) == Some(n) {
        assert(find_named(items, n) == Some(items[0]));
    } else {
        let t = items.drop_first();
        assert(t[i - 1] == items[i]);
        lemma_find_some(t, i - 1, n);
        let j = choose|j: int| 0 <= j <= i - 1 && find_named(t, n) == Some(#[trigger] t[j]);
        assert(t[j] == items[j + 1]);
        assert(find_named(items, n) == Some(items[j + 1]));
    }
}

/// `p` extends `prefix` by at least one segment, and those further segments
/// resolve in `j`.
pub open spec fn leads_to(j: Json, prefix: Seq<char>, p: Seq<char>) -> bool {
    let s = path_segments(p);
    let n = path_segments(prefix).len() as int;
    &&& s.len() > n
    &&& s.take(n) == path_segments(prefix)
    &&& resolve(j, s.skip(n)) is Some
}

proof fn lemma_join_segments(prefix: Seq<char>, key: Seq<char>)
    requires
        plain_segment(key),
    ensures
        path_segments(join(prefix, key)) == path_segments(prefix) + seq![key],
{
    reveal_strlit("/");
    assert(join(prefix, key) =~= prefix + seq!['/'] + key);
    lemma_runs_append(prefix, '/', key);
}

proof fn lemma_last_step(j: Json, key: Seq<char>, prefix: Seq<char>)
    requires
        plain_segment(key),
        child(j, key) is Some,
    ensures
        leads_to(j, prefix, join(prefix, key)),
{
    lemma_join_segments(prefix, key);
    let ps = path_segments(prefix);
    let s = path_segments(join(prefix, key));
    assert(s.take(ps.len() as int) =~= ps);
    assert(s.skip(ps.len() as int) =~= seq![key]);
    assert(seq![key].drop_first() =~= Seq::<Seq<char>>::empty());
}

proof fn lemma_step_down(j: Json, key: Seq<char>, c: Json, prefix: Seq<char>, e: Seq<char>)
    requires
        plain_segment(key),
        child(j, key) == Some(c),
        leads_to(c, join(prefix, key), e),
    ensures
        leads_to(j, prefix, e),
{
    lemma_join_segments(prefix, key);
    let ps = path_segments(prefix);
    let n = ps.len() as int;
    let s = path_segments(e);
    assert(s.take(n + 1) == ps + seq![key]);
    assert(s.take(n) =~= ps) by {
        assert forall|x: int| 0 <= x < n implies s.take(n)[x] == ps[x] by {
            assert(s.take(n)[x] == s.take(n + 1)[x]);
            assert((ps + seq![key])[x] == ps[x]);
        }
    }
    let tail = s.skip(n);
    assert(tail[0] == s.take(n + 1)[n]);
    assert(tail[0] == key);
    assert(tail.drop_first() =~= s.skip(n + 1));
}

proof fn lemma_key_paths_lead(fs: Seq<(Seq<char>, Json)>, m: int, ip: Seq<char>)
    requires
        0 <= m <= fs.len(),
        forall|i: int| 0 <= i < fs.len() ==> plain_segment(#[trigger] fs[i].0),
    ensures
        forall|x: int|
            0 <= x < key_paths(fs.take(m), ip).len() ==> leads_to(
                Json::Object(fs),
                ip,
                #[trigger] key_paths(fs.take(m), ip)[x],
            ),
    decreases m,
{
    if m > 0 {
        lemma_key_paths_lead(fs, m - 1, ip);
        let t = fs.take(m);
        assert(t.drop_last() =~= fs.take(m - 1));
        assert(t.last() == fs[m - 1]);
        let acc = key_paths(fs.take(m - 1), ip);
        let r = key_paths(t, ip);
        lemma_lookup_some(fs, m - 1);
        lemma_last_step(Json::Object(fs), fs[m - 1].0, ip);
        assert(r == acc.push(join(ip, fs[m - 1].0)));
        assert forall|x: int| 0 <= x < r.len() implies leads_to(
            Json::Object(fs),
            ip,
            #[trigger] r[x],
        ) by {
            if x < acc.len() {
                assert(r[x] == acc[x]);
            }
        }
    }
}

proof fn lemma_item_paths_lead(items: Seq<Json>, m: int, path: Seq<char>)
    requires
        0 <= m <= items.len(),
        plain_tree(Json::Array(items)),
    ensures
        forall|x: int|
            0 <= x < item_paths(items, items.take(m), path).len() ==> leads_to(
                Json::Array(items),
                path,
                #[trigger] item_paths(items, items.take(m), path)[x],
            ),
    decreases m,
{
    if m > 0 {
        lemma_item_paths_lead(items, m - 1, path);
        let t = items.take(m);
        assert(t.drop_last() =~= items.take(m - 1));
        assert(t.last() == items[m - 1]);
        let it = items[m - 1];
        assert(plain_tree(it));
        let acc = item_paths(items, items.take(m - 1), path);
        let r = item_paths(items, t, path);
        match name_of(it) {
            Some(n) => {
                let ip = join(path, n);
                lemma_find_some(items, m - 1, n);
                let j = choose|j: int|
                    0 <= j <= m - 1 && find_named(items, n) == Some(#[trigger] items[j]);
                let target = items[j];
                assert(plain_tree(target));
                lemma_last_step(Json::Array(items), n, path);
                let kp = match target {
                    Json::Object(fs) => key_paths(fs, ip),
                    _ => seq![],
                };
                assert(r == acc + seq![ip] + kp);
                match target {
                    Json::Object(fs) => {
                        assert forall|i: int| 0 <= i < fs.len() implies plain_segment(
                            #[trigger] fs[i].0,
                        ) by {
                            assert(plain_tree(target));
                        }
                        lemma_key_paths_lead(fs, fs.len() as int, ip);
                        assert(fs.take(fs.len() as int) =~= fs);
                        assert forall|x: int| 0 <= x < kp.len() implies leads_to(
                            Json::Array(items),
                            path,
                            #[trigger] kp[x],
                        ) by {
                            lemma_step_down(Json::Array(items), n, target, path, kp[x]);
                        }
                    },
                    _ => {},
                }
                assert forall|x: int| 0 <= x < r.len() implies leads_to(
                    Json::Array(items),
                    path,
                    #[trigger] r[x],
                ) by {
                    if x < acc.len() {
                        assert(r[x] == acc[x]);
                    } else if x == acc.len() {
                        assert(r[x] == ip);
                    } else {
                        assert(r[x] == kp[x - acc.len() - 1]);
                    }
                }
            },
            None => {
                assert(r == acc);
            },
        }
    }
}

proof fn lemma_member_paths_lead(
    fs: Seq<(Seq<char>, Json)>,
    m: int,
    prefix: Seq<char>,
)
    requires
        0 <= m <= fs.len(),
        plain_tree(Json::Object(fs)),
    ensures
        forall|x: int|
            0 <= x < member_paths(fs.take(m), prefix).len() ==> leads_to(
                Json::Object(fs),
                prefix,
                #[trigger] member_paths(fs.take(m), prefix)[x],
            ),
    decreases fs, m,
{
    if m > 0 {
        lemma_member_paths_lead(fs, m - 1, prefix);
        let t = fs.take(m);
        assert(t.drop_last() =~= fs.take(m - 1));
        assert(t.last() == fs[m - 1]);
        let key = fs[m - 1].0;
        let c = fs[m - 1].1;
        let path = join(prefix, key);
        assert(plain_segment(key) && plain_tree(c));
        lemma_lookup_at(fs, m - 1);
        lemma_last_step(Json::Object(fs), key, prefix);
        let acc = member_paths(fs.take(m - 1), prefix);
        let r = member_paths(t, prefix);
        let sub = match c {
            Json::Object(_) => endpoints(c, path),
            Json::Array(items) => item_paths(items, items, path),
            _ => seq![],
        };
        assert(r == acc + seq![path] + sub);
        match c {
            Json::Object(_) => {
                assert(decreases_to!(fs => fs[m - 1]));
                lemma_endpoints_lead(c, path);
                assert forall|x: int| 0 <= x < endpoints(c, path).len() implies leads_to(
                    Json::Object(fs),
                    prefix,
                    #[trigger] endpoints(c, path)[x],
                ) by {
                    lemma_step_down(Json::Object(fs), key, c, prefix, endpoints(c, path)[x]);
                }
            },
            Json::Array(items) => {
                lemma_item_paths_lead(items, items.len() as int, path);
                assert(items.take(items.len() as int) =~= items);
                assert forall|x: int| 0 <= x < item_paths(items, items, path).len() implies leads_to(
                    Json::Object(fs),
                    prefix,
                    #[trigger] item_paths(items, items, path)[x],
                ) by {
                    lemma_step_down(
                        Json::Object(fs),
                        key,
                        c,
                        prefix,
                        item_paths(items, items, path)[x],
                    );
                }
            },
            _ => {},
        }
        assert forall|x: int| 0 <= x < r.len() implies leads_to(
            Json::Object(fs),
            prefix,
            #[trigger] r[x],
        ) by {
            if x < acc.len() {
                assert(r[x] == acc[x]);
            } else if x == acc.len() {
                assert(r[x] == path);
            } else {
                assert(r[x] == sub[x - acc.len() - 1]);
            }
        }
    }
}

proof fn lemma_endpoints_lead(j: Json, prefix: Seq<char>)
    requires
        plain_tree(j),
    ensures
        forall|x: int|
            0 <= x < endpoints(j, prefix).len() ==> leads_to(
                j,
                prefix,
                #[trigger] endpoints(j, prefix)[x],
            ),
    decreases j,
{
    match j {
        Json::Object(fs) => {
            lemma_member_paths_lead(fs, fs.len() as int, prefix);
            assert(fs.take(fs.len() as int) =~= fs);
            assert(endpoints(j, prefix) == member_paths(fs.take(fs.len() as int), prefix));
        },
        _ => {},
    }
}

/// Every path that the index lists answers with a value, for a tree whose
/// object keys are unique plain segments and whose array elements' names are
/// plain segments.
pub proof fn lemma_listed_paths_answer(tree: Json)
    requires
        plain_tree(tree),
    ensures
        forall|x: int|
            0 <= x < listed_paths(tree).len() ==> answer(tree, #[trigger] listed_paths(tree)[x])
                is Some,
{
    lemma_endpoints_lead(tree, seq![]);
    assert(path_segments(seq![]) =~= Seq::<Seq<char>>::empty()) by {
        assert(runs(seq![], Delim::Char('/')) == Seq::<Seq<char>>::empty());
    }
    assert forall|x: int| 0 <= x < listed_paths(tree).len() implies answer(
        tree,
        #[trigger] listed_paths(tree)[x],
    ) is Some by {
        if x > 0 {
            let e = endpoints(tree, seq![])[x - 1];
            assert(listed_paths(tree)[x] == e);
            assert(leads_to(tree, seq![], e));
            assert(path_segments(e).skip(0) =~= path_segments(e));
        }
    }
}

/// The request for the full snapshot answers with the whole tree.
pub proof fn lemma_stats_is_whole_tree(tree: Json)
    ensures
        answer(tree, "/stats"@) == Some(tree),
{
}

/// The result for one element of a wildcard followed by one field: the
/// element's name, then that field.
pub open spec fn tagged_field(it: Json, field: Seq<char>) -> Json {
    Json::Object(seq![("name"@, name_value(it)->0), (field, child(it, field)->0)])
}

proof fn lemma_expand_field(items: Seq<Json>, field: Seq<char>, m: int)
    requires
        0 <= m <= items.len(),
        !field.contains(','),
        !is_wildcard_text(field),
        field != "name"@,
        forall|i: int|
            0 <= i < items.len() ==> name_value(#[trigger] items[i]) is Some && child(
                items[i],
                field,
            ) is Some,
    ensures
        expand(items.take(m), seq![field]) == Seq::new(
            m as nat,
            |i: int| tagged_field(items[i], field),
        ),
    decreases m,
{
    if m == 0 {
        assert(expand(items.take(m), seq![field]) =~= Seq::new(
            m as nat,
            |i: int| tagged_field(items[i], field),
        ));
    } else {
        lemma_expand_field(items, field, m - 1);
        let t = items.take(m);
        assert(t.drop_last() =~= items.take(m - 1));
        let it = items[m - 1];
        assert(t.last() == it);
        assert(name_value(it) is Some && child(it, field) is Some);
        let v = child(it, field)->0;
        assert(seq![field][0] == field);
        assert(seq![field].drop_first() =~= Seq::<Seq<char>>::empty());
        assert(it is Object);
        assert(resolve(it, seq![field]) == Some(Json::Object(seq![(field, v)])));
        assert(lookup(seq![(field, v)], "name"@) is None) by {
            assert(seq![(field, v)][0] == (field, v));
            assert(seq![(field, v)].drop_first() =~= Seq::<(Seq<char>, Json)>::empty());
            assert(lookup(Seq::<(Seq<char>, Json)>::empty(), "name"@) is None);
        }
        assert(seq![("name"@, name_value(it)->0)] + seq![(field, v)] =~= seq![
            ("name"@, name_value(it)->0),
            (field, v),
        ]);
        assert(expand(items.take(m), seq![field]) =~= Seq::new(
            m as nat,
            |i: int| tagged_field(items[i], field),
        ));
    }
}

/// A wildcard over a non-empty array followed by one field gives one result
/// per element, in the elements' order, each tagged with that element's name.
pub proof fn lemma_wildcard_field(
    fs: Seq<(Seq<char>, Json)>,
    key: Seq<char>,
    items: Seq<Json>,
    star: Seq<char>,
    field: Seq<char>,
)
    requires
        lookup(fs, key) == Some(Json::Array(items)),
        !is_wildcard_text(key),
        is_wildcard_text(star),
        !field.contains(','),
        !is_wildcard_text(field),
        field != "name"@,
        items.len() > 0,
        forall|i: int|
            0 <= i < items.len() ==> name_value(#[trigger] items[i]) is Some && child(
                items[i],
                field,
            ) is Some,
    ensures
        resolve(Json::Object(fs), seq![key, star, field]) == Some(
            Json::Array(Seq::new(items.len(), |i: int| tagged_field(items[i], field))),
        ),
{
    let segs = seq![key, star, field];
    assert(segs[0] == key);
    assert(segs.drop_first() =~= seq![star, field]);
    assert(seq![star, field][0] == star);
    assert(seq![star, field].drop_first() =~= seq![field]);
    lemma_expand_field(items, field, items.len() as int);
    assert(items.take(items.len() as int) =~= items);
    let rs = expand(items, seq![field]);
    assert(rs.len() == items.len());
    assert(resolve(Json::Array(items), seq![star, field]) == Some(Json::Array(rs)));
    assert(child(Json::Object(fs), key) == Some(Json::Array(items)));
}

/// A comma list of two fields of an object, the first present and the second
/// absent, answers with the first alone.
pub proof fn lemma_comma_keeps_found(fs: Seq<(Seq<char>, Json)>, a: Seq<char>, b: Seq<char>)
    requires
        a.len() > 0,
        b.len() > 0,
        trimmed(a) == a,
        trimmed(b) == b,
        !a.contains(','),
        !b.contains(','),
        !a.contains('/'),
        !b.contains('/'),
        lookup(fs, a) is Some,
        lookup(fs, b) is None,
    ensures
        answer(Json::Object(fs), "/"@ + a + ","@ + b) == Some(
            Json::Object(seq![(a, lookup(fs, a)->0)]),
        ),
{
    reveal_strlit("/");
    reveal_strlit(",");
    reveal_strlit("/stats");
    let raw = a + seq![','] + b;
    assert(raw.contains(',')) by {
        assert(raw[a.len() as int] == ',');
    }
    assert(!raw.contains('/')) by {
        if raw.contains('/') {
            let k = choose|k: int| 0 <= k < raw.len() && raw[k] == '/';
            if k < a.len() {
                assert(a[k] == raw[k]);
            } else if k > a.len() {
                assert(b[k - a.len() - 1] == raw[k]);
            }
        }
    }
    let path = "/"@ + a + ","@ + b;
    assert(path =~= seq![] + seq!['/'] + raw);
    assert(path != "/stats"@) by {
        if path == "/stats"@ {
            assert(path.len() == 6);
            assert(path[a.len() as int + 1] == ',');
        }
    }
    lemma_runs_append(seq![], '/', raw);
    assert(runs(seq![], Delim::Char('/')) == Seq::<Seq<char>>::empty());
    assert(path_segments(path) =~= seq![raw]);
    lemma_runs_single(a, ',');
    lemma_runs_append(a, ',', b);
    let ps = seq![a, b];
    assert(runs(raw, Delim::Char(',')) =~= ps);
    assert(ps.drop_last() =~= seq![a]);
    assert(ps.last() == b);
    assert(seq![a].last() == a);
    assert(seq![a].drop_last() =~= Seq::<Seq<char>>::empty());
    assert(clean_names(Seq::<Seq<char>>::empty()) == Seq::<Seq<char>>::empty());
    assert(clean_names(seq![a]) =~= seq![a]);
    assert(field_names(raw) =~= ps);
    let v = lookup(fs, a)->0;
    assert(collect_fields(Json::Object(fs), Seq::<Seq<char>>::empty()) == Seq::<
        (Seq<char>, Json),
    >::empty());
    assert(lookup(Seq::<(Seq<char>, Json)>::empty(), a) is None);
    assert(collect_fields(Json::Object(fs), seq![a]) =~= seq![(a, v)]);
    assert(collect_fields(Json::Object(fs), ps) =~= seq![(a, v)]);
    assert(seq![raw].drop_first() =~= Seq::<Seq<char>>::empty());
}

/// A request for one top-level key that the tree lacks addresses nothing, so
/// `query` answers it with not found and echoes the path as requested.
pub proof fn lemma_missing_key_not_found(fs: Seq<(Seq<char>, Json)>, k: Seq<char>)
    requires
        plain_segment(k),
        lookup(fs, k) is None,
        "/"@ + k != "/stats"@,
    ensures
        answer(Json::Object(fs), "/"@ + k) is None,
{
    reveal_strlit("/");
    assert("/"@ + k =~= seq![] + seq!['/'] + k);
    lemma_runs_append(seq![], '/', k);
    assert(runs(seq![], Delim::Char('/')) == Seq::<Seq<char>>::empty());
    assert(path_segments("/"@ + k) =~= seq![k]);
    assert(seq![k][0] == k);
    assert(seq![k].drop_first() =~= Seq::<Seq<char>>::empty());
}

} // verus!
