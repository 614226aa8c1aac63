//! A generic value tree (objects, arrays, numbers, text) that snapshots are
//! rendered into, so that queries can walk them without knowing their shape.
use vstd::prelude::*;
use crate::text::same_text;

verus! {

/// The mathematical value of a tree. An object is a sequence of members,
/// a number keeps the text of its decimal form.
pub enum Json {
    Null,
    Bool(bool),
    Number(Seq<char>),
    Text(Seq<char>),
    Array(Seq<Json>),
    Object(Seq<(Seq<char>, Json)>),
}

/// A value tree.
#[derive(Debug)]
pub enum Node {
    Null,
    Bool(bool),
    /// A number, as the text of its decimal form.
    Number(String),
    Text(String),
    Array(Vec<Node>),
    Object(Vec<Member>),
}

/// A named member of an object.
#[derive(Debug)]
pub struct Member {
    pub key: String,
    pub value: Node,
}

impl View for Node {
    type V = Json;

    open spec fn view(&self) -> Json
        decreases self,
    {
        match self {
            Node::Null => Json::Null,
            Node::Bool(b) => Json::Bool(*b),
            Node::Number(s) => Json::Number(s@),
            Node::Text(s) => Json::Text(s@),
            Node::Array(v) => Json::Array(
                Seq::new(
                    v.len() as nat,
                    |i: int|
                        if 0 <= i < v.len() {
                            v[i].view()
                        } else {
                            Json::Null
                        },
                ),
            ),
            Node::Object(v) => Json::Object(
                Seq::new(
                    v@.len(),
                    |i: int|
                        if 0 <= i < v@.len() {
                            v@[i].member_view()
                        } else {
                            (Seq::empty(), Json::Null)
                        },
                ),
            ),
        }
    }
}

impl Member {
    pub open spec fn member_view(&self) -> (Seq<char>, Json)
        decreases self,
    {
        (self.key@, self.value.view())
    }
}

pub open spec fn items_view(v: Seq<Node>) -> Seq<Json> {
    Seq::new(v.len(), |i: int| v[i]@)
}

pub open spec fn members_view(v: Seq<Member>) -> Seq<(Seq<char>, Json)> {
    Seq::new(v.len(), |i: int| v[i].member_view())
}

pub open spec fn opt_view(o: Option<Node>) -> Option<Json> {
    match o {
        Some(n) => Some(n@),
        None => None,
    }
}

pub proof fn lemma_view_parts(n: Node)
    ensures
        n matches Node::Array(v) ==> n@ == Json::Array(items_view(v@)),
        n matches Node::Object(v) ==> n@ == Json::Object(members_view(v@)),
{
    match n {
        Node::Array(v) => assert(n@->Array_0 =~= items_view(v@)),
        Node::Object(v) => {
            assert(n@->Object_0 =~= members_view(v@));
        },
        _ => {},
    }
}

/// The value of the first member named `key`.
pub open spec fn lookup(fields: Seq<(Seq<char>, Json)>, key: Seq<char>) -> Option<Json>
    decreases fields.len(),
{
    if fields.len() == 0 {
        None
    } else if fields[0].0 == key {
        Some(fields[0].1)
    } else {
        lookup(fields.drop_first(), key)
    }
}

/// The `name` member of an object, whatever its kind.
pub open spec fn name_value(j: Json) -> Option<Json> {
    match j {
        Json::Object(fs) => lookup(fs, "name"@),
        _ => None,
    }
}

/// The text of the `name` member of an object.
pub open spec fn name_of(j: Json) -> Option<Seq<char>> {
    match name_value(j) {
        Some(Json::Text(n)) => Some(n),
        _ => None,
    }
}

/// The first element whose name is `name`.
pub open spec fn find_named(items: Seq<Json>, name: Seq<char>) -> Option<Json>
    decreases items.len(),
{
    if items.len() == 0 {
        None
    } else if name_of(items[0]) == Some(name) {
        Some(items[0])
    } else {
        find_named(items.drop_first(), name)
    }
}

/// One step down: an object's member by key, or an array's element by name.
pub open spec fn child(j: Json, key: Seq<char>) -> Option<Json> {
    match j {
        Json::Object(fs) => lookup(fs, key),
        Json::Array(items) => find_named(items, key),
        _ => None,
    }
}

impl Clone for Node {
    #[verifier::loop_isolation(false)]
    fn clone(&self) -> (r: Self)
        ensures
            r@ == self@,
        decreases self,
    {
        match self {
            Node::Null => Node::Null,
            Node::Bool(b) => Node::Bool(*b),
            Node::Number(s) => Node::Number(s.clone()),
            Node::Text(s) => Node::Text(s.clone()),
            Node::Array(v) => {
                let mut out: Vec<Node> = Vec::new();
                let mut i: usize = 0;
                while i < v.len()
                    invariant
                        i <= v@.len(),
                        items_view(out@) == items_view(v@).take(i as int),
                        *self == Node::Array(*v),
                    decreases v@.len() - i,
                {
                    let c = v[i].clone();
                    let ghost before = out@;
                    out.push(c);
                    assert(items_view(out@) =~= items_view(before).push(v@[i as int]@));
                    i = i + 1;
                    assert(items_view(out@) =~= items_view(v@).take(i as int));
                }
                let r = Node::Array(out);
                proof {
                    lemma_view_parts(*self);
                    lemma_view_parts(r);
                    assert(items_view(v@).take(i as int) =~= items_view(v@));
                }
                r
            },
            Node::Object(v) => {
                let mut out: Vec<Member> = Vec::new();
                let mut i: usize = 0;
                while i < v.len()
                    invariant
                        i <= v@.len(),
                        members_view(out@) == members_view(v@).take(i as int),
                        *self == Node::Object(*v),
                    decreases v@.len() - i,
                {
                    let c = v[i].value.clone();
                    let k = v[i].key.clone();
                    let ghost before = out@;
                    out.push(Member { key: k, value: c });
                    assert(members_view(out@) =~= members_view(before).push(
                        v@[i as int].member_view(),
                    ));
                    i = i + 1;
                    assert(members_view(out@) =~= members_view(v@).take(i as int));
                }
                let r = Node::Object(out);
                proof {
                    lemma_view_parts(*self);
                    lemma_view_parts(r);
                    assert(members_view(v@).take(i as int) =~= members_view(v@));
                }
                r
            },
        }
    }
}

/// The member named `key` of an object's members.
pub fn get_member<'a>(fields: &'a Vec<Member>, key: &str) -> (r: Option<&'a Node>)
    ensures
        match r {
            Some(n) => lookup(members_view(fields@), key@) == Some(n@),
            None => lookup(members_view(fields@), key@) is None,
        },
{
    let ghost all = members_view(fields@);
    assert(all.skip(0) =~= all);
    let mut i: usize = 0;
    while i < fields.len()
        invariant
            i <= fields@.len(),
            all == members_view(fields@),
            lookup(all, key@) == lookup(all.skip(i as int), key@),
        decreases fields@.len() - i,
    {
        assert(all.skip(i as int).drop_first() =~= all.skip(i + 1));
        if same_text(fields[i].key.as_str(), key) {
            return Some(&fields[i].value);
        }
        i = i + 1;
    }
    None
}

/// The text of a node's `name` member.
pub fn name_text(n: &Node) -> (r: Option<&String>)
    ensures
        match r {
            Some(s) => name_of(n@) == Some(s@),
            None => name_of(n@) is None,
        },
{
    proof {
        lemma_view_parts(*n);
    }
    match n {
        Node::Object(fs) => match get_member(fs, "name") {
            Some(Node::Text(s)) => Some(s),
            _ => None,
        },
        _ => None,
    }
}

/// The first element of `items` whose name is `name`.
pub fn find_by_name<'a>(items: &'a Vec<Node>, name: &str) -> (r: Option<&'a Node>)
    ensures
        match r {
            Some(n) => find_named(items_view(items@), name@) == Some(n@),
            None => find_named(items_view(items@), name@) is None,
        },
{
    let ghost all = items_view(items@);
    assert(all.skip(0) =~= all);
    let mut i: usize = 0;
    while i < items.len()
        invariant
            i <= items@.len(),
            all == items_view(items@),
            find_named(all, name@) == find_named(all.skip(i as int), name@),
        decreases items@.len() - i,
    {
        assert(all.skip(i as int).drop_first() =~= all.skip(i + 1));
        match name_text(&items[i]) {
            Some(s) => {
                if same_text(s.as_str(), name) {
                    return Some(&items[i]);
                }
            },
            None => {},
        }
        i = i + 1;
    }
    None
}

/// One step down from `n`: a member by key, or an array element by name.
pub fn child_of<'a>(n: &'a Node, key: &str) -> (r: Option<&'a Node>)
    ensures
        match r {
            Some(c) => child(n@, key@) == Some(c@),
            None => child(n@, key@) is None,
        },
{
    proof {
        lemma_view_parts(*n);
    }
    match n {
        Node::Object(fs) => get_member(fs, key),
        Node::Array(items) => find_by_name(items, key),
        _ => None,
    }
}

} // verus!
