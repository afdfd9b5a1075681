//! JSON values.
use crate::text::{decimal_of, joined, same};
use crate::text;
use vstd::prelude::*;

verus! {

/// A JSON value. A number is kept as it is written.
pub enum Json {
    Null,
    Bool(bool),
    Number(String),
    Str(String),
    Array(Vec<Json>),
    Object(Vec<Member>),
}

/// A member of a JSON object.
pub struct Member {
    pub name: String,
    pub value: Json,
}

/// A JSON value.
pub enum JsonView {
    Null,
    Bool(bool),
    Number(Seq<char>),
    Str(Seq<char>),
    Array(Seq<JsonView>),
    Object(Seq<(Seq<char>, JsonView)>),
}

impl Json {
    /// The value.
    pub open spec fn tree(self) -> JsonView
        decreases self,
    {
        match self {
            Json::Null => JsonView::Null,
            Json::Bool(b) => JsonView::Bool(b),
            Json::Number(s) => JsonView::Number(s@),
            Json::Str(s) => JsonView::Str(s@),
            Json::Array(v) => JsonView::Array(
                Seq::new(
                    v@.len(),
                    |i: int|
                        if 0 <= i < v@.len() {
                            v@[i].tree()
                        } else {
                            JsonView::Null
                        },
                ),
            ),
            Json::Object(v) => JsonView::Object(
                Seq::new(
                    v@.len(),
                    |i: int|
                        if 0 <= i < v@.len() {
                            (v@[i].name@, v@[i].value.tree())
                        } else {
                            (Seq::empty(), JsonView::Null)
                        },
                ),
            ),
        }
    }
}

impl View for Json {
    type V = JsonView;

    open spec fn view(&self) -> JsonView {
        self.tree()
    }
}

impl View for Member {
    type V = (Seq<char>, JsonView);

    open spec fn view(&self) -> (Seq<char>, JsonView) {
        (self.name@, self.value@)
    }
}

/// The position of the last member with a name.
pub open spec fn member_at(members: Seq<(Seq<char>, JsonView)>, name: Seq<char>) -> Option<int>
    decreases members.len(),
{
    if members.len() == 0 {
        None
    } else if members.last().0 == name {
        Some(members.len() - 1)
    } else {
        member_at(members.drop_last(), name)
    }
}

/// The value of a member of an object; any other value has no members.
pub open spec fn member(j: JsonView, name: Seq<char>) -> Option<JsonView> {
    match j {
        JsonView::Object(members) => match member_at(members, name) {
            Some(k) => Some(members[k].1),
            None => None,
        },
        _ => None,
    }
}

/// A text as a value.
pub open spec fn text_value(s: Seq<char>) -> JsonView {
    JsonView::Str(s)
}

/// An optional text as a value.
pub open spec fn optional_text(s: Option<Seq<char>>) -> JsonView {
    match s {
        Some(s) => JsonView::Str(s),
        None => JsonView::Null,
    }
}

/// A count as a value.
pub open spec fn count_value(n: nat) -> JsonView {
    JsonView::Number(text::decimal(n))
}

/// A number as a value.
pub open spec fn integer_value(n: int) -> JsonView {
    JsonView::Number(
        if n < 0 {
            "-"@ + text::decimal((-n) as nat)
        } else {
            text::decimal(n as nat)
        },
    )
}

/// An optional number as a value.
pub open spec fn optional_integer(n: Option<i64>) -> JsonView {
    match n {
        Some(n) => integer_value(n as int),
        None => JsonView::Null,
    }
}

impl Json {
    /// A text as a value.
    pub fn text(s: &str) -> (r: Json)
        ensures
            r@ == text_value(s@),
    {
        Json::Str(s.to_owned())
    }

    /// An optional text as a value.
    pub fn optional(s: &Option<String>) -> (r: Json)
        ensures
            r@ == optional_text(text::view_opt(*s)),
    {
        match s {
            Some(s) => Json::Str(s.clone()),
            None => Json::Null,
        }
    }

    /// A count as a value.
    pub fn count(n: usize) -> (r: Json)
        ensures
            r@ == count_value(n as nat),
    {
        Json::Number(decimal_of(n as u128))
    }

    /// A long count as a value.
    pub fn long_count(n: u128) -> (r: Json)
        ensures
            r@ == count_value(n as nat),
    {
        Json::Number(decimal_of(n))
    }

    /// A number as a value.
    pub fn integer(n: i64) -> (r: Json)
        ensures
            r@ == integer_value(n as int),
    {
        if n < 0 {
            let digits = decimal_of((-(n as i128)) as u128);
            Json::Number(joined("-", digits.as_str()))
        } else {
            Json::Number(decimal_of(n as u128))
        }
    }

    /// An optional number as a value.
    pub fn optional_integer(n: Option<i64>) -> (r: Json)
        ensures
            r@ == optional_integer(n),
    {
        match n {
            Some(n) => Json::integer(n),
            None => Json::Null,
        }
    }

    /// A list of values.
    pub fn array(v: Vec<Json>) -> (r: Json)
        ensures
            r@ == JsonView::Array(text::views(v@)),
    {
        let r = Json::Array(v);
        assert(r@->Array_0 =~= text::views(v@));
        r
    }

    /// A list of texts.
    pub fn texts(v: &Vec<String>) -> (r: Json)
        ensures
            r@ == JsonView::Array(text::views(v@).map_values(|s: Seq<char>| text_value(s))),
    {
        let ghost wanted = text::views(v@).map_values(|s: Seq<char>| text_value(s));
        let mut out: Vec<Json> = Vec::new();
        let mut i: usize = 0;
        while i < v.len()
            invariant
                wanted == text::views(v@).map_values(|s: Seq<char>| text_value(s)),
                i <= v@.len(),
                out@.len() == i,
                forall|k: int| 0 <= k < i ==> (#[trigger] out@[k])@ == wanted[k],
            decreases v@.len() - i,
        {
            out.push(Json::text(v[i].as_str()));
            i = i + 1;
        }
        assert(text::views(out@) =~= wanted);
        Json::array(out)
    }

    /// The value of a member.
    pub fn get(&self, name: &str) -> (r: Option<&Json>)
        ensures
            match r {
                Some(v) => member(self@, name@) == Some(v@),
                None => member(self@, name@) is None,
            },
    {
        match self {
            Json::Object(members) => find_member(members, name),
            _ => None,
        }
    }

    /// The text, where the value is one.
    pub fn as_str(&self) -> (r: Option<&str>)
        ensures
            match r {
                Some(s) => self@ == JsonView::Str(s@),
                None => !(self@ is Str),
            },
    {
        match self {
            Json::Str(s) => Some(s.as_str()),
            _ => None,
        }
    }
}

/// The value of the last member with a name.
fn find_member<'a>(members: &'a Vec<Member>, name: &str) -> (r: Option<&'a Json>)
    ensures
        match r {
            Some(v) => member(Json::Object(*members)@, name@) == Some(v@),
            None => member(Json::Object(*members)@, name@) is None,
        },
{
    let ghost all = Json::Object(*members)@->Object_0;
    assert(all.len() == members@.len());
    let mut i: usize = members.len();
    assert(all.take(i as int) =~= all);
    while i > 0
        invariant
            all == Json::Object(*members)@->Object_0,
            all.len() == members@.len(),
            i <= members@.len(),
            member_at(all, name@) == member_at(all.take(i as int), name@),
        decreases i,
    {
        i = i - 1;
        proof {
            assert(all.take(i + 1).drop_last() =~= all.take(i as int));
            assert(all.take(i + 1).last() == (members@[i as int].name@, members@[i as int].value@));
        }
        if same(members[i].name.as_str(), name) {
            return Some(&members[i].value);
        }
    }
    None
}

/// The members of an object that is being put together.
pub struct Fields {
    members: Vec<Member>,
}

impl View for Fields {
    type V = Seq<(Seq<char>, JsonView)>;

    closed spec fn view(&self) -> Seq<(Seq<char>, JsonView)> {
        text::views(self.members@)
    }
}

impl Fields {
    /// No members.
    pub fn new() -> (r: Self)
        ensures
            r@ == Seq::<(Seq<char>, JsonView)>::empty(),
    {
        let r = Fields { members: Vec::new() };
        assert(r@ =~= Seq::<(Seq<char>, JsonView)>::empty());
        r
    }

    /// With one more member.
    pub fn with(self, name: &str, value: Json) -> (r: Self)
        ensures
            r@ == self@.push((name@, value@)),
    {
        let mut members = self.members;
        let m = Member { name: name.to_owned(), value };
        proof {
            text::lemma_views_push(members@, m);
        }
        members.push(m);
        Fields { members }
    }

    /// The object with these members.
    pub fn object(self) -> (r: Json)
        ensures
            r@ == JsonView::Object(self@),
    {
        let r = Json::Object(self.members);
        assert(r@->Object_0 =~= self@);
        r
    }
}

impl Json {
    /// A copy of the value.
    pub fn copy(&self) -> (r: Json)
        ensures
            r@ == self@,
        decreases self,
    {
        match self {
            Json::Null => Json::Null,
            Json::Bool(b) => Json::Bool(*b),
            Json::Number(s) => Json::Number(s.clone()),
            Json::Str(s) => Json::Str(s.clone()),
            Json::Array(v) => {
                let mut out: Vec<Json> = Vec::new();
                let mut i: usize = 0;
                while i < v.len()
                    invariant
                        decreases_to!(self => v@),
                        i <= v@.len(),
                        out@.len() == i,
                        forall|k: int| 0 <= k < i ==> (#[trigger] out@[k])@ == v@[k]@,
                    decreases v@.len() - i,
                {
                    assert(decreases_to!(v@ => v@[i as int]));
                    out.push(v[i].copy());
                    i = i + 1;
                }
                let r = Json::Array(out);
                assert(r@->Array_0 =~= self@->Array_0);
                r
            },
            Json::Object(v) => {
                let mut out: Vec<Member> = Vec::new();
                let mut i: usize = 0;
                while i < v.len()
                    invariant
                        decreases_to!(self => v@),
                        i <= v@.len(),
                        out@.len() == i,
                        forall|k: int| 0 <= k < i ==> (#[trigger] out@[k])@ == v@[k]@,
                    decreases v@.len() - i,
                {
                    assert(decreases_to!(v@ => v@[i as int]));
                    assert(decreases_to!(v@[i as int] => v@[i as int].value));
                    let m = Member { name: v[i].name.clone(), value: v[i].value.copy() };
                    out.push(m);
                    i = i + 1;
                }
                let r = Json::Object(out);
                assert(r@->Object_0 =~= self@->Object_0);
                r
            },
        }
    }
}

} // verus!
