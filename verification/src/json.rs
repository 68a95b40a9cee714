//! JSON documents: the value type that a unit carries for its shapes, gates and
//! evidence, and the reading and writing of its text.
use vstd::prelude::*;

use crate::text::same;

verus! {

/// `serde_json::Number`: a JSON number, carried through unread.
#[verifier::external_type_specification]
#[verifier::external_body]
pub struct ExNumber(serde_json::Number);

/// `serde_json::Value`: a JSON document as the parser gives it.
#[verifier::external_type_specification]
#[verifier::external_body]
pub struct ExValue(serde_json::Value);

/// A JSON document.
#[derive(Debug)]
pub enum Json {
    Null,
    Bool(bool),
    Number(serde_json::Number),
    Text(String),
    Array(Vec<Json>),
    /// The members; where a name occurs twice, the later member stands.
    Object(Vec<(String, Json)>),
}

/// A JSON document as a mathematical value.
pub enum JsonView {
    Null,
    Bool(bool),
    Number(serde_json::Number),
    Text(Seq<char>),
    Array(Seq<JsonView>),
    Object(Seq<(Seq<char>, JsonView)>),
}

impl View for Json {
    type V = JsonView;

    open spec fn view(&self) -> JsonView
        decreases self,
    {
        match self {
            Json::Null => JsonView::Null,
            Json::Bool(b) => JsonView::Bool(*b),
            Json::Number(n) => JsonView::Number(*n),
            Json::Text(s) => JsonView::Text(s@),
            Json::Array(items) => JsonView::Array(
                Seq::new(
                    items@.len(),
                    |i: int|
                        if 0 <= i < items@.len() {
                            items[i].view()
                        } else {
                            JsonView::Null
                        },
                ),
            ),
            Json::Object(members) => JsonView::Object(
                Seq::new(
                    members@.len(),
                    |i: int|
                        (
                            members[i].0@,
                            if 0 <= i < members@.len() {
                                members[i].1.view()
                            } else {
                                JsonView::Null
                            },
                        ),
                ),
            ),
        }
    }
}

/// The value of the last member named `key`, of those before `end`.
pub open spec fn last_member(
    members: Seq<(Seq<char>, JsonView)>,
    key: Seq<char>,
    end: int,
) -> Option<JsonView>
    decreases end,
{
    if end <= 0 || end > members.len() {
        None
    } else if members[end - 1].0 == key {
        Some(members[end - 1].1)
    } else {
        last_member(members, key, end - 1)
    }
}

impl JsonView {
    /// The member `key` of an object; nothing for any other document.
    pub open spec fn member(self, key: Seq<char>) -> Option<JsonView> {
        match self {
            JsonView::Object(members) => last_member(members, key, members.len() as int),
            _ => None,
        }
    }

    /// Element `i` of an array; nothing for any other document.
    pub open spec fn element(self, i: int) -> Option<JsonView> {
        match self {
            JsonView::Array(items) => if 0 <= i < items.len() {
                Some(items[i])
            } else {
                None
            },
            _ => None,
        }
    }

    /// The member `key`, `null` where there is none.
    pub open spec fn under(self, key: Seq<char>) -> JsonView {
        match self.member(key) {
            Some(v) => v,
            None => JsonView::Null,
        }
    }

    /// Element `i`, `null` where there is none.
    pub open spec fn nth(self, i: int) -> JsonView {
        match self.element(i) {
            Some(v) => v,
            None => JsonView::Null,
        }
    }

    /// The text of a string; nothing for any other document.
    pub open spec fn text(self) -> Option<Seq<char>> {
        match self {
            JsonView::Text(s) => Some(s),
            _ => None,
        }
    }
}

/// The view of a document that may be absent.
pub open spec fn opt_json(v: Option<Json>) -> Option<JsonView> {
    match v {
        Some(v) => Some(v@),
        None => None,
    }
}

/// The view of what reading a text gave.
pub open spec fn reading(r: Result<Json, String>) -> Result<JsonView, Seq<char>> {
    match r {
        Ok(v) => Ok(v@),
        Err(message) => Err(message@),
    }
}

/// The views of some members.
pub open spec fn member_views(members: Seq<(String, Json)>) -> Seq<(Seq<char>, JsonView)> {
    members.map_values(|m: (String, Json)| (m.0@, m.1@))
}

impl Json {
    /// A string.
    pub fn text(s: &str) -> (r: Json)
        ensures
            r@ == JsonView::Text(s@),
    {
        Json::Text(s.to_owned())
    }

    /// A truth value.
    pub fn truth(b: bool) -> (r: Json)
        ensures
            r@ == JsonView::Bool(b),
    {
        Json::Bool(b)
    }

    /// An integer.
    pub fn integer(n: i64) -> (r: Json)
        ensures
            r@ == JsonView::Number(integer_number(n)),
    {
        Json::Number(number_of(n))
    }

    /// An array of one document.
    pub fn array_of(item: Json) -> (r: Json)
        ensures
            r@ == JsonView::Array(seq![item@]),
    {
        let mut items: Vec<Json> = Vec::new();
        items.push(item);
        let r = Json::Array(items);
        assert(r@->Array_0 =~= seq![item@]);
        r
    }

    /// An object.
    pub fn object(members: Vec<(String, Json)>) -> (r: Json)
        ensures
            r@ == JsonView::Object(member_views(members@)),
    {
        let ghost views = member_views(members@);
        let r = Json::Object(members);
        assert(r@->Object_0 =~= views);
        r
    }

    /// Whether this is `null`.
    pub fn is_null(&self) -> (r: bool)
        ensures
            r == (self@ == JsonView::Null),
    {
        match self {
            Json::Null => true,
            _ => false,
        }
    }

    /// The member `key` of an object.
    pub fn get(&self, key: &str) -> (r: Option<&Json>)
        ensures
            match r {
                Some(v) => self@.member(key@) == Some(v@),
                None => self@.member(key@) is None,
            },
    {
        match self {
            Json::Object(members) => {
                let mut i: usize = members.len();
                while i > 0
                    invariant
                        i <= members@.len(),
                        self == Json::Object(*members),
                        self@.member(key@) == last_member(
                            self@->Object_0,
                            key@,
                            i as int,
                        ),
                    decreases i,
                {
                    i -= 1;
                    assert(self@->Object_0[i as int] == (
                        members@[i as int].0@,
                        members@[i as int].1@,
                    ));
                    if same(members[i].0.as_str(), key) {
                        return Some(&members[i].1);
                    }
                }
                None
            },
            _ => None,
        }
    }

    /// Element `i` of an array.
    pub fn at(&self, i: usize) -> (r: Option<&Json>)
        ensures
            match r {
                Some(v) => self@.element(i as int) == Some(v@),
                None => self@.element(i as int) is None,
            },
    {
        match self {
            Json::Array(items) => if i < items.len() {
                assert(self@->Array_0[i as int] == items@[i as int]@);
                Some(&items[i])
            } else {
                None
            },
            _ => None,
        }
    }

    /// The text of a string.
    pub fn as_str(&self) -> (r: Option<&str>)
        ensures
            match r {
                Some(s) => self@.text() == Some(s@),
                None => self@.text() is None,
            },
    {
        match self {
            Json::Text(s) => Some(s.as_str()),
            _ => None,
        }
    }
}

impl Clone for Json {
    #[verifier::loop_isolation(false)]
    fn clone(&self) -> (r: Self)
        ensures
            r@ == self@,
        decreases self,
    {
        match self {
            Json::Null => Json::Null,
            Json::Bool(b) => Json::Bool(*b),
            Json::Number(n) => Json::Number(number_copy(n)),
            Json::Text(s) => Json::Text(s.clone()),
            Json::Array(items) => {
                let mut copy: Vec<Json> = Vec::new();
                let mut i: usize = 0;
                while i < items.len()
                    invariant
                        i <= items@.len(),
                        copy@.len() == i,
                        self == Json::Array(*items),
                        forall|j: int| 0 <= j < i ==> (#[trigger] copy@[j])@ == items@[j]@,
                    decreases items@.len() - i,
                {
                    assert(decreases_to!(*items => items[i as int]));
                    copy.push(items[i].clone());
                    i += 1;
                }
                let r = Json::Array(copy);
                assert(r@->Array_0 =~= self@->Array_0);
                r
            },
            Json::Object(members) => {
                let mut copy: Vec<(String, Json)> = Vec::new();
                let mut i: usize = 0;
                while i < members.len()
                    invariant
                        i <= members@.len(),
                        copy@.len() == i,
                        self == Json::Object(*members),
                        forall|j: int|
                            0 <= j < i ==> (#[trigger] copy@[j]).0@ == members@[j].0@
                                && copy@[j].1@ == members@[j].1@,
                    decreases members@.len() - i,
                {
                    assert(decreases_to!(*members => members[i as int]));
                    copy.push((members[i].0.clone(), members[i].1.clone()));
                    i += 1;
                }
                let r = Json::Object(copy);
                assert(r@->Object_0 =~= self@->Object_0);
                r
            },
        }
    }
}

impl Default for Json {
    fn default() -> (r: Self)
        ensures
            r@ == JsonView::Null,
    {
        Json::Null
    }
}

// ---------------------------------------------------------------- sameness

/// Whether no later member has the name of member `i`.
pub open spec fn stands(members: Seq<(Seq<char>, JsonView)>, i: int) -> bool {
    forall|k: int| i < k < members.len() ==> (#[trigger] members[k]).0 != members[i].0
}

/// Whether every name of one object is a name of the other.
pub open spec fn names_within(
    a: Seq<(Seq<char>, JsonView)>,
    b: Seq<(Seq<char>, JsonView)>,
) -> bool {
    forall|i: int|
        0 <= i < a.len() ==> last_member(b, (#[trigger] a[i]).0, b.len() as int) is Some
}

/// Whether two documents are the same: objects by what they hold under each name,
/// in whatever order their members stand.
pub open spec fn same_document(a: JsonView, b: JsonView) -> bool
    decreases a,
{
    match (a, b) {
        (JsonView::Null, JsonView::Null) => true,
        (JsonView::Bool(x), JsonView::Bool(y)) => x == y,
        (JsonView::Number(x), JsonView::Number(y)) => same_number(x, y),
        (JsonView::Text(x), JsonView::Text(y)) => x == y,
        (JsonView::Array(x), JsonView::Array(y)) => x.len() == y.len() && forall|i: int|
            0 <= i < x.len() ==> same_document(#[trigger] x[i], y[i]),
        (JsonView::Object(x), JsonView::Object(y)) => {
            &&& names_within(x, y)
            &&& names_within(y, x)
            &&& forall|i: int|
                0 <= i < x.len() && stands(x, i) ==> same_document(
                    (#[trigger] x[i]).1,
                    b.under(x[i].0),
                )
        },
        _ => false,
    }
}

/// Whether every name of one object is a name of the other.
fn holds_names(a: &Json, b: &Json) -> (r: bool)
    requires
        a is Object,
        b is Object,
    ensures
        r == names_within(a@->Object_0, b@->Object_0),
{
    match a {
        Json::Object(members) => {
            let mut i: usize = 0;
            while i < members.len()
                invariant
                    i <= members@.len(),
                    *a == Json::Object(*members),
                    b is Object,
                    forall|k: int|
                        0 <= k < i ==> last_member(
                            b@->Object_0,
                            (#[trigger] a@->Object_0[k]).0,
                            b@->Object_0.len() as int,
                        ) is Some,
                decreases members@.len() - i,
            {
                assert(a@->Object_0[i as int].0 == members@[i as int].0@);
                if b.get(members[i].0.as_str()).is_none() {
                    return false;
                }
                i += 1;
            }
            true
        },
        _ => true,
    }
}

fn last_of_its_name(members: &Vec<(String, Json)>, i: usize, whole: &Json) -> (r: bool)
    requires
        *whole == Json::Object(*members),
        i < members@.len(),
    ensures
        r == stands(whole@->Object_0, i as int),
{
    let ghost views = whole@->Object_0;
    assert(views[i as int].0 == members@[i as int].0@);
    let n: usize = members.len();
    let mut k: usize = i + 1;
    while k < n
        invariant
            n == members@.len(),
            i < k <= n,
            *whole == Json::Object(*members),
            views == whole@->Object_0,
            views[i as int].0 == members@[i as int].0@,
            forall|m: int| i < m < k ==> (#[trigger] views[m]).0 != views[i as int].0,
        decreases n - k,
    {
        assert(views[k as int].0 == members@[k as int].0@);
        if same(members[k].0.as_str(), members[i].0.as_str()) {
            return false;
        }
        k += 1;
    }
    true
}

#[verifier::loop_isolation(false)]
fn are_same(a: &Json, b: &Json) -> (r: bool)
    ensures
        r == same_document(a@, b@),
    decreases a,
{
    match (a, b) {
        (Json::Null, Json::Null) => true,
        (Json::Bool(x), Json::Bool(y)) => *x == *y,
        (Json::Number(x), Json::Number(y)) => equal_numbers(x, y),
        (Json::Text(x), Json::Text(y)) => same(x.as_str(), y.as_str()),
        (Json::Array(x), Json::Array(y)) => {
            if x.len() != y.len() {
                return false;
            }
            let mut i: usize = 0;
            while i < x.len()
                invariant
                    i <= x@.len() == y@.len(),
                    *a == Json::Array(*x),
                    *b == Json::Array(*y),
                    forall|k: int|
                        0 <= k < i ==> same_document(#[trigger] a@->Array_0[k], b@->Array_0[k]),
                decreases x@.len() - i,
            {
                assert(a@->Array_0[i as int] == x@[i as int]@);
                assert(b@->Array_0[i as int] == y@[i as int]@);
                assert(decreases_to!(*x => x[i as int]));
                if !are_same(&x[i], &y[i]) {
                    return false;
                }
                i += 1;
            }
            true
        },
        (Json::Object(x), Json::Object(_)) => {
            if !holds_names(a, b) || !holds_names(b, a) {
                return false;
            }
            let mut i: usize = 0;
            while i < x.len()
                invariant
                    i <= x@.len(),
                    *a == Json::Object(*x),
                    forall|k: int|
                        0 <= k < i && stands(a@->Object_0, k) ==> same_document(
                            (#[trigger] a@->Object_0[k]).1,
                            b@.under(a@->Object_0[k].0),
                        ),
                decreases x@.len() - i,
            {
                assert(a@->Object_0[i as int] == (x@[i as int].0@, x@[i as int].1@));
                assert(decreases_to!(*x => x[i as int]));
                if last_of_its_name(x, i, a) {
                    match b.get(x[i].0.as_str()) {
                        Some(v) => {
                            if !are_same(&x[i].1, v) {
                                return false;
                            }
                        },
                        None => {
                            return false;
                        },
                    }
                }
                i += 1;
            }
            true
        },
        _ => false,
    }
}

impl PartialEq for Json {
    fn eq(&self, other: &Self) -> (r: bool) {
        are_same(self, other)
    }
}

impl vstd::std_specs::cmp::PartialEqSpecImpl for Json {
    open spec fn obeys_eq_spec() -> bool {
        true
    }

    open spec fn eq_spec(&self, other: &Self) -> bool {
        same_document(self@, other@)
    }
}

// -------------------------------------------------------- the outside parser

/// `serde_json::Number::clone` gives back the number it copies.
#[verifier::external_body]
fn number_copy(n: &serde_json::Number) -> (r: serde_json::Number)
    ensures
        r == *n,
{
    n.clone()
}

/// Whether `serde_json` takes two numbers for the same.
pub uninterp spec fn same_number(a: serde_json::Number, b: serde_json::Number) -> bool;

/// `==` on two `serde_json::Number`s: whether they are the same number. An integer
/// and a float are not; two floats are compared as floats.
#[verifier::external_body]
fn equal_numbers(a: &serde_json::Number, b: &serde_json::Number) -> (r: bool)
    ensures
        r == same_number(*a, *b),
{
    a == b
}

/// The JSON number that `serde_json` makes of the integer `n`.
pub uninterp spec fn integer_number(n: i64) -> serde_json::Number;

/// `serde_json::Number::from` on an `i64`: the number of that integer.
#[verifier::external_body]
fn number_of(n: i64) -> (r: serde_json::Number)
    ensures
        r == integer_number(n),
{
    serde_json::Number::from(n)
}

/// Copies a `serde_json::Value` into a `Json`, variant by variant and with the
/// same contents. Only the reading wrapper below calls it, and that wrapper's
/// result is what is claimed of the two together.
#[verifier::external_body]
fn json_of_value(v: serde_json::Value) -> Json {
    match v {
        serde_json::Value::Null => Json::Null,
        serde_json::Value::Bool(b) => Json::Bool(b),
        serde_json::Value::Number(n) => Json::Number(n),
        serde_json::Value::String(s) => Json::Text(s),
        serde_json::Value::Array(items) => Json::Array(
            items.into_iter().map(json_of_value).collect(),
        ),
        serde_json::Value::Object(members) => Json::Object(
            members.into_iter().map(|m| (m.0, json_of_value(m.1))).collect(),
        ),
    }
}

/// Copies a `Json` into a `serde_json::Value`, variant by variant and with the
/// same contents; of members with one name the last stays. Only the writing
/// wrapper below calls it, and that wrapper's result is what is claimed of the
/// two together.
#[verifier::external_body]
fn value_of_json(v: &Json) -> serde_json::Value {
    match v {
        Json::Null => serde_json::Value::Null,
        Json::Bool(b) => serde_json::Value::Bool(*b),
        Json::Number(n) => serde_json::Value::Number(n.clone()),
        Json::Text(s) => serde_json::Value::String(s.clone()),
        Json::Array(items) => serde_json::Value::Array(items.iter().map(value_of_json).collect()),
        Json::Object(members) => serde_json::Value::Object(
            members.iter().map(|m| (m.0.clone(), value_of_json(&m.1))).collect(),
        ),
    }
}

/// The document that a text spells, or the message that says why it is not JSON.
pub uninterp spec fn json_result(text: Seq<char>) -> Result<JsonView, Seq<char>>;

/// `serde_json::from_str` into a `serde_json::Value`: the document that the text
/// spells or, where it is not JSON, the message of the parser's error.
#[verifier::external_body]
fn read_value(text: &str) -> (r: Result<Json, String>)
    ensures
        reading(r) == json_result(text@),
{
    serde_json::from_str::<serde_json::Value>(text).map(json_of_value).map_err(|e| e.to_string())
}

/// The compact text of a document.
pub uninterp spec fn json_text(v: JsonView) -> Seq<char>;

/// `serde_json::to_string` of the document: its compact text.
#[verifier::external_body]
fn write_value(v: &Json) -> (r: String)
    ensures
        r@ == json_text(v@),
{
    serde_json::to_string(&value_of_json(v)).unwrap_or_default()
}

/// Reads a JSON text: the document, or why it is none.
pub fn parse(text: &str) -> (r: Result<Json, String>)
    ensures
        reading(r) == json_result(text@),
{
    read_value(text)
}

/// Writes a document as compact text.
pub fn render(v: &Json) -> (r: String)
    ensures
        r@ == json_text(v@),
{
    write_value(v)
}

// ---------------------------------------------------------------------- laws

/// A member is found by its name: the last that was added under it, whatever else
/// the object holds; and a name under which nothing was added holds nothing.
pub proof fn law_a_member_is_found_by_its_name(
    members: Seq<(Seq<char>, JsonView)>,
    key: Seq<char>,
    v: JsonView,
    other: Seq<char>,
)
    ensures
        JsonView::Object(members.push((key, v))).member(key) == Some(v),
        other != key ==> JsonView::Object(members.push((key, v))).member(other)
            == JsonView::Object(members).member(other),
        JsonView::Object(Seq::empty()).member(key) is None,
        JsonView::Object(members.push((key, v))).under(key) == v,
        JsonView::Object(members).member(other) is None ==> JsonView::Object(members).under(other)
            == JsonView::Null,
{
    let more = members.push((key, v));
    lemma_last_member_before(members, more, other, members.len() as int);
}

proof fn lemma_last_member_before(
    a: Seq<(Seq<char>, JsonView)>,
    b: Seq<(Seq<char>, JsonView)>,
    key: Seq<char>,
    end: int,
)
    requires
        0 <= end <= a.len(),
        end <= b.len(),
        forall|i: int| 0 <= i < end ==> (#[trigger] a[i]) == b[i],
    ensures
        last_member(a, key, end) == last_member(b, key, end),
    decreases end,
{
    if end > 0 {
        assert(a[end - 1] == b[end - 1]);
        lemma_last_member_before(a, b, key, end - 1);
    }
}

/// Where objects stand one behind the other, what the later one holds counts.
pub proof fn lemma_member_of_both(
    a: Seq<(Seq<char>, JsonView)>,
    b: Seq<(Seq<char>, JsonView)>,
    key: Seq<char>,
)
    ensures
        JsonView::Object(a + b).member(key) == match JsonView::Object(b).member(key) {
            Some(v) => Some(v),
            None => JsonView::Object(a).member(key),
        },
    decreases b.len(),
{
    if b.len() == 0 {
        assert(a + b =~= a);
    } else {
        let rest = b.drop_last();
        let last = b.last();
        lemma_member_of_both(a, rest, key);
        assert(b =~= rest.push(last));
        assert(a + b =~= (a + rest).push(last));
        law_a_member_is_found_by_its_name(rest, last.0, last.1, key);
        law_a_member_is_found_by_its_name(a + rest, last.0, last.1, key);
    }
}

/// Only an object has members, only an array has elements, and only a string has a
/// text.
pub proof fn law_a_document_is_read_by_its_kind(v: JsonView, key: Seq<char>, i: int)
    ensures
        !(v is Object) ==> v.member(key) is None && v.under(key) == JsonView::Null,
        !(v is Array) ==> v.element(i) is None && v.nth(i) == JsonView::Null,
        v matches JsonView::Array(items) ==> (0 <= i < items.len() ==> v.element(i) == Some(
            items[i],
        ) && v.nth(i) == items[i]),
        v matches JsonView::Array(items) ==> (!(0 <= i < items.len()) ==> v.element(i) is None
            && v.nth(i) == JsonView::Null),
        v matches JsonView::Text(s) ==> v.text() == Some(s),
        !(v is Text) ==> v.text() is None,
{
}

/// The members of an object are told in their order, each as it is.
pub proof fn law_members_are_told_as_they_are(members: Seq<(String, Json)>, i: int)
    requires
        0 <= i < members.len(),
    ensures
        member_views(members).len() == members.len(),
        member_views(members)[i] == (members[i].0@, members[i].1@),
{
}

proof fn lemma_member_stands(x: Seq<(Seq<char>, JsonView)>, key: Seq<char>, end: int) -> (i: int)
    requires
        0 <= end <= x.len(),
        last_member(x, key, end) is Some,
        forall|k: int| end <= k < x.len() ==> (#[trigger] x[k]).0 != key,
    ensures
        0 <= i < end,
        x[i].0 == key,
        x[i].1 == last_member(x, key, end)->0,
        stands(x, i),
    decreases end,
{
    if x[end - 1].0 == key {
        end - 1
    } else {
        lemma_member_stands(x, key, end - 1)
    }
}

proof fn lemma_stands_is_member(x: Seq<(Seq<char>, JsonView)>, i: int, end: int)
    requires
        0 <= i < end <= x.len(),
        stands(x, i),
    ensures
        last_member(x, x[i].0, end) == Some(x[i].1),
    decreases end,
{
    if i < end - 1 {
        assert(x[end - 1].0 != x[i].0);
        lemma_stands_is_member(x, i, end - 1);
    }
}

proof fn lemma_named_is_member(x: Seq<(Seq<char>, JsonView)>, i: int, end: int)
    requires
        0 <= i < end <= x.len(),
    ensures
        last_member(x, x[i].0, end) is Some,
    decreases end,
{
    if x[end - 1].0 != x[i].0 {
        lemma_named_is_member(x, i, end - 1);
    }
}

/// Objects are the same if and only if they hold the same under every name; the
/// order of their members counts for nothing.
pub proof fn law_objects_are_compared_by_name(
    x: Seq<(Seq<char>, JsonView)>,
    y: Seq<(Seq<char>, JsonView)>,
)
    ensures
        same_document(JsonView::Object(x), JsonView::Object(y)) <==> forall|key: Seq<char>|
            same_under(JsonView::Object(x), JsonView::Object(y), key),
{
    let a = JsonView::Object(x);
    let b = JsonView::Object(y);
    if same_document(a, b) {
        assert forall|key: Seq<char>| same_under(a, b, key) by {
            if a.member(key) is Some {
                let i = lemma_member_stands(x, key, x.len() as int);
                assert(last_member(y, x[i].0, y.len() as int) is Some);
                assert(same_document(x[i].1, b.under(x[i].0)));
            }
            if b.member(key) is Some {
                let i = lemma_member_stands(y, key, y.len() as int);
                assert(last_member(x, y[i].0, x.len() as int) is Some);
            }
        }
    }
    if forall|key: Seq<char>| same_under(a, b, key) {
        assert forall|i: int| 0 <= i < x.len() implies last_member(
            y,
            (#[trigger] x[i]).0,
            y.len() as int,
        ) is Some by {
            lemma_named_is_member(x, i, x.len() as int);
            assert(same_under(a, b, x[i].0));
        }
        assert forall|i: int| 0 <= i < y.len() implies last_member(
            x,
            (#[trigger] y[i]).0,
            x.len() as int,
        ) is Some by {
            lemma_named_is_member(y, i, y.len() as int);
            assert(same_under(a, b, y[i].0));
        }
        assert forall|i: int| 0 <= i < x.len() && stands(x, i) implies same_document(
            (#[trigger] x[i]).1,
            b.under(x[i].0),
        ) by {
            lemma_stands_is_member(x, i, x.len() as int);
            assert(same_under(a, b, x[i].0));
        }
    }
}

/// Two documents hold the same under a name, or neither holds anything.
pub open spec fn same_under(a: JsonView, b: JsonView, key: Seq<char>) -> bool {
    match (a.member(key), b.member(key)) {
        (Some(v), Some(w)) => same_document(v, w),
        (None, None) => true,
        _ => false,
    }
}

/// Documents of different kinds are not the same; texts and truth values are the
/// same if they are equal, and arrays if they are the same place by place.
pub proof fn law_documents_are_compared_by_kind(a: JsonView, b: JsonView)
    ensures
        same_document(JsonView::Null, JsonView::Null),
        a matches JsonView::Text(s) ==> (b matches JsonView::Text(t) ==> (same_document(a, b)
            <==> s == t)),
        a matches JsonView::Bool(s) ==> (b matches JsonView::Bool(t) ==> (same_document(a, b)
            <==> s == t)),
        a matches JsonView::Number(s) ==> (b matches JsonView::Number(t) ==> (same_document(a, b)
            <==> same_number(s, t))),
        a matches JsonView::Array(s) ==> (b matches JsonView::Array(t) ==> (same_document(a, b)
            <==> s.len() == t.len() && forall|i: int|
            0 <= i < s.len() ==> same_document(#[trigger] s[i], t[i]))),
        (a is Null) != (b is Null) || (a is Bool) != (b is Bool) || (a is Number) != (b is Number)
            || (a is Text) != (b is Text) || (a is Array) != (b is Array) || (a is Object) != (
        b is Object) ==> !same_document(a, b),
{
}

/// A document that may be absent, and one that may not be JSON, are told as they are.
pub proof fn law_readings_are_told_as_they_are(v: Json, message: String)
    ensures
        opt_json(Some(v)) == Some(v@),
        opt_json(None::<Json>) is None,
        reading(Ok::<Json, String>(v)) == Ok::<JsonView, Seq<char>>(v@),
        reading(Err::<Json, String>(message)) == Err::<JsonView, Seq<char>>(message@),
{
}

} // verus!
