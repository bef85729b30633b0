//! The hierarchical value model: text, number, and level-tagged array.

use vstd::prelude::*;

verus! {

/// Semantic granularity of an array's *elements*: an array of level `Line`
/// is a file-of-lines.  The order is `File < Line < Word < Char`.
#[derive(Clone, Copy, Debug, PartialEq, Eq, Structural)]
pub enum Level {
    File,
    Line,
    Word,
    Char,
}

impl Level {
    /// The level one step finer: splitting an element of this level
    /// produces elements of the returned level.
    pub fn split_into(self) -> (r: Level)
        ensures
            r == self.spec_split_into(),
    {
        match self {
            Level::File => Level::Line,
            Level::Line => Level::Word,
            Level::Word => Level::Char,
            Level::Char => Level::Char,
        }
    }

    pub open spec fn spec_split_into(self) -> Level {
        match self {
            Level::File => Level::Line,
            Level::Line => Level::Word,
            Level::Word => Level::Char,
            Level::Char => Level::Char,
        }
    }

    /// The default delimiter used when joining or rendering elements
    /// of this level.
    pub fn join_delimiter(self) -> (r: &'static str)
        ensures
            r@ == self.spec_join_delimiter(),
    {
        proof {
            reveal_strlit("\n");
            reveal_strlit(" ");
            reveal_strlit("");
        }
        match self {
            Level::File => "\n",
            Level::Line => "\n",
            Level::Word => " ",
            Level::Char => "",
        }
    }

    pub open spec fn spec_join_delimiter(self) -> Seq<char> {
        match self {
            Level::File => seq!['\n'],
            Level::Line => seq!['\n'],
            Level::Word => seq![' '],
            Level::Char => Seq::<char>::empty(),
        }
    }
}

/// A value: a UTF-8 string, a 64-bit integer, or an ordered sequence of
/// values tagged with the level its elements represent.
#[derive(Debug, PartialEq)]
pub enum Value {
    Text(String),
    Number(i64),
    Array(Array),
}

/// An ordered sequence of values plus the level of its elements.
#[derive(Debug, PartialEq)]
pub struct Array {
    pub elements: Vec<Value>,
    pub level: Level,
}

/// The mathematical model of a `Value`: text as a character sequence,
/// a number as an unbounded integer, an array as a sequence of models.
pub enum ValueSpec {
    Text { chars: Seq<char> },
    Number { num: int },
    Array { elems: Seq<ValueSpec>, level: Level },
}

/// The models of a sequence of values, element by element.
pub open spec fn view_seq(elems: Seq<Value>) -> Seq<ValueSpec>
    decreases elems,
{
    if elems.len() == 0 {
        Seq::<ValueSpec>::empty()
    } else {
        seq![elems.first()@] + view_seq(elems.drop_first())
    }
}

/// `view_seq` is the element-wise model of a sequence of values.
pub broadcast proof fn lemma_view_seq(elems: Seq<Value>)
    ensures
        #[trigger] view_seq(elems).len() == elems.len(),
        forall|i: int| 0 <= i < elems.len() ==> view_seq(elems)[i] == elems[i]@,
    decreases elems.len(),
{
    if elems.len() > 0 {
        lemma_view_seq(elems.drop_first());
        let rest = view_seq(elems.drop_first());
        let s = seq![elems.first()@] + rest;
        assert(view_seq(elems) == s);
        assert forall|i: int| 0 <= i < elems.len() implies view_seq(elems)[i] == elems[i]@ by {
            if i == 0 {
                assert(s[0] == elems.first()@);
            } else {
                assert(s[i] == rest[i - 1]);
                assert(elems.drop_first()[i - 1] == elems[i]);
            }
        }
    }
}

impl View for Value {
    type V = ValueSpec;

    open spec fn view(&self) -> ValueSpec
        decreases self,
    {
        match self {
            Value::Text(s) => ValueSpec::Text { chars: s@ },
            Value::Number(n) => ValueSpec::Number { num: *n as int },
            Value::Array(arr) => {
                proof {
                    assert(decreases_to!(self => arr));
                    assert(decreases_to!(arr => arr.elements@));
                }
                ValueSpec::Array { elems: view_seq(arr.elements@), level: arr.level }
            },
        }
    }
}

impl View for Array {
    type V = Seq<ValueSpec>;

    open spec fn view(&self) -> Seq<ValueSpec> {
        view_seq(self.elements@)
    }
}

impl Array {
    pub fn new(elements: Vec<Value>, level: Level) -> (r: Array)
        ensures
            r.elements == elements,
            r.level == level,
    {
        Array { elements, level }
    }

    pub fn len(&self) -> (r: usize)
        ensures
            r == self@.len(),
    {
        proof {
            lemma_view_seq(self.elements@);
        }
        self.elements.len()
    }

    pub fn is_empty(&self) -> (r: bool)
        ensures
            r == (self@.len() == 0),
    {
        proof {
            lemma_view_seq(self.elements@);
        }
        self.elements.len() == 0
    }

    /// A recursive clone of the whole array, level preserved.
    pub fn deep_copy(&self) -> (r: Array)
        ensures
            r@ == self@,
            r.level == self.level,
    {
        let mut elems: Vec<Value> = Vec::new();
        let n = self.elements.len();
        let mut i: usize = 0;
        while i < n
            invariant
                i <= n,
                n == self.elements@.len(),
                elems@.len() == i as int,
                forall|j: int| 0 <= j < i as int ==> elems@[j]@ == self.elements@[j]@,
            decreases n - i,
        {
            let c = self.elements[i].deep_copy();
            elems.push(c);
            i = i + 1;
        }
        let r = Array { elements: elems, level: self.level };
        proof {
            lemma_view_seq(elems@);
            lemma_view_seq(self.elements@);
            assert(r@ =~= self@);
        }
        r
    }

    /// A deep copy of the first `n` elements, level preserved.
    pub fn truncated_copy(&self, n: usize) -> (r: Array)
        ensures
            r@ == self@.take(if n as int <= self@.len() { n as int } else { self@.len() as int }),
            r.level == self.level,
    {
        let limit = if n <= self.elements.len() { n } else { self.elements.len() };
        let mut elems: Vec<Value> = Vec::new();
        let mut i: usize = 0;
        while i < limit
            invariant
                i <= limit,
                limit <= self.elements@.len(),
                elems@.len() == i as int,
                forall|j: int| 0 <= j < i as int ==> elems@[j]@ == self.elements@[j]@,
            decreases limit - i,
        {
            let c = self.elements[i].deep_copy();
            elems.push(c);
            i = i + 1;
        }
        let r = Array { elements: elems, level: self.level };
        proof {
            lemma_view_seq(elems@);
            lemma_view_seq(self.elements@);
            assert(r@ =~= self@.take(
                if n as int <= self@.len() { n as int } else { self@.len() as int },
            ));
        }
        r
    }
}

impl Value {
    /// A recursive clone: the copy models the same value.
    pub fn deep_copy(&self) -> (r: Value)
        ensures
            r@ == self@,
        decreases self,
    {
        match self {
            Value::Text(s) => Value::Text(clone_string(s)),
            Value::Number(n) => Value::Number(*n),
            Value::Array(arr) => {
                let mut elems: Vec<Value> = Vec::new();
                let n = arr.elements.len();
                let mut i: usize = 0;
                while i < n
                    invariant
                        i <= n,
                        n == arr.elements@.len(),
                        elems@.len() == i as int,
                        forall|j: int| 0 <= j < i as int ==> elems@[j]@ == arr.elements@[j]@,
                        self == Value::Array(*arr),
                    decreases n - i,
                {
                    proof {
                        assert(self->Array_0 == *arr);
                        assert(decreases_to!(*self => self->Array_0));
                        assert(decreases_to!(*self => *arr));
                        assert(decreases_to!(*arr => arr.elements));
                        assert(decreases_to!(arr.elements => arr.elements@));
                        assert(decreases_to!(arr.elements@ => arr.elements@[i as int]));
                        assert(decreases_to!(*self => arr.elements@[i as int]));
                    }
                    let c = arr.elements[i].deep_copy();
                    elems.push(c);
                    i = i + 1;
                }
                let r = Value::Array(Array { elements: elems, level: arr.level });
                proof {
                    lemma_view_seq(elems@);
                    lemma_view_seq(arr.elements@);
                    assert(view_seq(elems@) =~= view_seq(arr.elements@));
                    assert(r@ == self@);
                }
                r
            },
        }
    }
}

/// The same characters, as vstd specifies `String::clone`.
pub fn clone_string(s: &String) -> (r: String)
    ensures
        r@ == s@,
{
    s.clone()
}

} // verus!
