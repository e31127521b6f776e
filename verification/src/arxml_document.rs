//! An ARXML document as plain values: its elements in depth-first document
//! order, each with its depth below the root, its XML name, its item name, its
//! character content, its path and the path of the element that it refers to.
//! The element tree is the nesting of depths: the children of an element are the
//! elements one level deeper that follow it before the next element that is not
//! deeper than it.

use vstd::prelude::*;

verus! {

/// The character content of an element, as plain values.
#[derive(Debug)]
pub enum CharData {
    /// An enumeration item, by its XML spelling.
    Enum(String),
    /// A string.
    Text(String),
    /// An unsigned integer.
    Unsigned(u64),
    /// A floating-point number, as its IEEE-754 bit pattern.
    Float(u64),
}

impl CharData {
    /// The text of string content.
    pub open spec fn spec_string_value(self) -> Option<String> {
        match self {
            CharData::Text(text) => Some(text),
            _ => None,
        }
    }

    /// The text of string content, if the content is a string.
    pub fn string_value(&self) -> (r: Option<String>)
        ensures
            r == self.spec_string_value(),
    {
        match self {
            CharData::Text(text) => Some(text.clone()),
            _ => None,
        }
    }

    /// The XML spelling of an enumeration item, if the content is one.
    pub fn enum_value(&self) -> (r: Option<String>)
        ensures
            r == enum_text(Some(*self)),
    {
        match self {
            CharData::Enum(item) => Some(item.clone()),
            _ => None,
        }
    }

    /// The bit pattern of floating-point content, if the content is a number
    /// of that kind.
    pub fn float_value_bits(&self) -> (r: Option<u64>)
        ensures
            r == float_bits(Some(*self)),
    {
        match self {
            CharData::Float(bits) => Some(*bits),
            _ => None,
        }
    }
}

/// The item of enumeration content.
pub open spec fn enum_text(c: Option<CharData>) -> Option<String> {
    match c {
        Some(CharData::Enum(item)) => Some(item),
        _ => None,
    }
}

/// The bit pattern of floating-point content.
pub open spec fn float_bits(c: Option<CharData>) -> Option<u64> {
    match c {
        Some(CharData::Float(bits)) => Some(bits),
        _ => None,
    }
}

/// One element of an ARXML document.
#[derive(Debug)]
pub struct ArxmlNode {
    /// How many elements enclose it; the root has depth 0.
    pub depth: usize,
    /// The XML spelling of its element name.
    pub name: String,
    /// Its short name, where it is identifiable.
    pub item_name: Option<String>,
    /// Its character content.
    pub content: Option<CharData>,
    /// The text that its character content reads as.
    pub text: Option<String>,
    /// Its path, where it is identifiable.
    pub path: Option<String>,
    /// The path of the element that it refers to, where it is a reference that
    /// resolves.
    pub target: Option<String>,
    /// Where it is a reference that does not resolve: the path of the element
    /// that it resolves to once its text is taken as the name of a constant,
    /// if it then resolves.
    pub retry: Option<String>,
}

/// One element of an ARXML document as it is loaded, before the references
/// that do not resolve are retried.
#[derive(Debug)]
pub struct LoadedElement {
    pub depth: usize,
    pub name: String,
    pub item_name: Option<String>,
    pub content: Option<CharData>,
    pub text: Option<String>,
    pub path: Option<String>,
    pub target: Option<String>,
}

/// The element `e` with the retried reference `retry`.
pub open spec fn with_retry(e: LoadedElement, retry: Option<String>) -> ArxmlNode {
    ArxmlNode {
        depth: e.depth,
        name: e.name,
        item_name: e.item_name,
        content: e.content,
        text: e.text,
        path: e.path,
        target: e.target,
        retry,
    }
}

/// The loaded elements, each with its retried reference.
pub open spec fn with_retries(elements: Seq<LoadedElement>, retries: Seq<Option<String>>) -> Seq<ArxmlNode> {
    Seq::new(elements.len(), |i: int| with_retry(elements[i], retries[i]))
}

/// The elements of an ARXML document in depth-first document order.
#[derive(Debug)]
pub struct ArxmlDocument {
    pub nodes: Vec<ArxmlNode>,
}

impl View for ArxmlDocument {
    type V = Seq<ArxmlNode>;

    open spec fn view(&self) -> Seq<ArxmlNode> {
        self.nodes@
    }
}

/// Indices as integers.
pub open spec fn idx_view(v: Seq<usize>) -> Seq<int> {
    v.map_values(|x: usize| x as int)
}

/// The children of element `i` among the elements from `j` on, in order.
pub open spec fn children_from(n: Seq<ArxmlNode>, i: int, j: int) -> Seq<int>
    decreases n.len() - j,
{
    if j <= i || j >= n.len() || i < 0 || n[j].depth <= n[i].depth {
        Seq::empty()
    } else if n[j].depth == n[i].depth + 1 {
        seq![j] + children_from(n, i, j + 1)
    } else {
        children_from(n, i, j + 1)
    }
}

/// The children of element `i`, in document order.
pub open spec fn children(n: Seq<ArxmlNode>, i: int) -> Seq<int> {
    children_from(n, i, i + 1)
}

/// The first of the elements `cs` named `name`.
pub open spec fn first_named(n: Seq<ArxmlNode>, cs: Seq<int>, name: Seq<char>) -> Option<int>
    decreases cs.len(),
{
    if cs.len() == 0 {
        None
    } else if n[cs[0]].name@ == name {
        Some(cs[0])
    } else {
        first_named(n, cs.drop_first(), name)
    }
}

/// The first child of element `i` named `name`.
pub open spec fn child_named(n: Seq<ArxmlNode>, i: int, name: Seq<char>) -> Option<int> {
    first_named(n, children(n, i), name)
}

/// The child `b` of the child `a` of element `i`.
pub open spec fn grandchild_named(n: Seq<ArxmlNode>, i: int, a: Seq<char>, b: Seq<char>) -> Option<int> {
    match child_named(n, i, a) {
        Some(e) => child_named(n, e, b),
        None => None,
    }
}

/// The first child of element `i`.
pub open spec fn first_child(n: Seq<ArxmlNode>, i: int) -> Option<int> {
    if children(n, i).len() > 0 {
        Some(children(n, i)[0])
    } else {
        None
    }
}

/// The content of the child of element `i` named `name`.
pub open spec fn sub_content(n: Seq<ArxmlNode>, i: int, name: Seq<char>) -> Option<CharData> {
    match child_named(n, i, name) {
        Some(j) => n[j].content,
        None => None,
    }
}

/// The text of the child of element `i` named `name`.
pub open spec fn sub_text(n: Seq<ArxmlNode>, i: int, name: Seq<char>) -> Option<Seq<char>> {
    match child_named(n, i, name) {
        Some(j) => text_of(n, j),
        None => None,
    }
}

/// The text of element `j`.
pub open spec fn text_of(n: Seq<ArxmlNode>, j: int) -> Option<Seq<char>> {
    match n[j].text {
        Some(t) => Some(t@),
        None => None,
    }
}

/// The text, or the empty text.
pub open spec fn text_or_empty(t: Option<Seq<char>>) -> Seq<char> {
    match t {
        Some(t) => t,
        None => Seq::empty(),
    }
}

/// The first element from `k` on whose path is `p`.
pub open spec fn lookup_from(n: Seq<ArxmlNode>, p: Seq<char>, k: int) -> Option<int>
    decreases n.len() - k,
{
    if k < 0 || k >= n.len() {
        None
    } else if n[k].path matches Some(s) && s@ == p {
        Some(k)
    } else {
        lookup_from(n, p, k + 1)
    }
}

/// The element whose path is `p`.
pub open spec fn lookup(n: Seq<ArxmlNode>, p: Seq<char>) -> Option<int> {
    lookup_from(n, p, 0)
}

/// The element that the reference element `j` resolves to.
pub open spec fn target_of(n: Seq<ArxmlNode>, j: int) -> Option<int> {
    match n[j].target {
        Some(t) => lookup(n, t@),
        None => None,
    }
}

/// The element that the reference element `j` resolves to once it is retried.
pub open spec fn retry_of(n: Seq<ArxmlNode>, j: int) -> Option<int> {
    match n[j].retry {
        Some(t) => lookup(n, t@),
        None => None,
    }
}

/// The nearest element before `k + 1` that is one level above element `i`.
pub open spec fn parent_from(n: Seq<ArxmlNode>, i: int, k: int) -> Option<int>
    decreases k + 1,
{
    if k < 0 {
        None
    } else if n[k].depth + 1 == n[i].depth {
        Some(k)
    } else {
        parent_from(n, i, k - 1)
    }
}

/// The parent of element `i`: the nearest earlier element one level above it.
pub open spec fn parent(n: Seq<ArxmlNode>, i: int) -> Option<int> {
    parent_from(n, i, i - 1)
}

proof fn lemma_children_from(n: Seq<ArxmlNode>, i: int, j: int)
    ensures
        forall|k: int|
            0 <= k < children_from(n, i, j).len() ==> {
                &&& j <= #[trigger] children_from(n, i, j)[k] < n.len()
                &&& 0 <= i < children_from(n, i, j)[k]
            },
    decreases n.len() - j,
{
    if j <= i || j >= n.len() || i < 0 || n[j].depth <= n[i].depth {
    } else {
        lemma_children_from(n, i, j + 1);
        if n[j].depth == n[i].depth + 1 {
            let rest = children_from(n, i, j + 1);
            assert forall|k: int| 0 <= k < children_from(n, i, j).len() implies {
                &&& j <= #[trigger] children_from(n, i, j)[k] < n.len()
                &&& 0 <= i < children_from(n, i, j)[k]
            } by {
                if k > 0 {
                    assert(children_from(n, i, j)[k] == rest[k - 1]);
                }
            }
        }
    }
}

/// The children of an element lie after it inside the document.
pub proof fn lemma_children(n: Seq<ArxmlNode>, i: int)
    ensures
        forall|k: int|
            0 <= k < children(n, i).len() ==> i < #[trigger] children(n, i)[k] < n.len(),
{
    lemma_children_from(n, i, i + 1);
}

proof fn lemma_first_named(n: Seq<ArxmlNode>, cs: Seq<int>, name: Seq<char>)
    ensures
        first_named(n, cs, name) matches Some(j) ==> cs.contains(j) && n[j].name@ == name,
    decreases cs.len(),
{
    if cs.len() > 0 && n[cs[0]].name@ != name {
        lemma_first_named(n, cs.drop_first(), name);
        if let Some(j) = first_named(n, cs.drop_first(), name) {
            let k = choose|k: int| 0 <= k < cs.drop_first().len() && cs.drop_first()[k] == j;
            assert(cs[k + 1] == j);
        }
    }
    if cs.len() > 0 {
        assert(cs[0] == cs[0]);
    }
}

/// The first child of element `i` named `name` is a child of `i` with that name.
pub proof fn lemma_child_named(n: Seq<ArxmlNode>, i: int, name: Seq<char>)
    ensures
        child_named(n, i, name) matches Some(j) ==> i < j < n.len() && n[j].name@ == name,
{
    lemma_first_named(n, children(n, i), name);
    lemma_children(n, i);
}

impl ArxmlDocument {
    /// The document of the loaded `elements`, element `i` with the retried
    /// reference `retries[i]`.
    pub fn from_loaded(elements: Vec<LoadedElement>, retries: Vec<Option<String>>) -> (r: Self)
        requires
            elements@.len() == retries@.len(),
        ensures
            r@ == with_retries(elements@, retries@),
    {
        let ghost all = with_retries(elements@, retries@);
        let ghost len = elements@.len();
        let mut elements = elements;
        let mut retries = retries;
        let mut reversed: Vec<ArxmlNode> = Vec::new();
        while elements.len() > 0
            invariant
                elements@.len() == retries@.len(),
                elements@.len() <= len,
                all.len() == len,
                forall|i: int| 0 <= i < elements@.len() ==> all[i] == with_retry(#[trigger] elements@[i], retries@[i]),
                reversed@.len() == len - elements@.len(),
                forall|j: int| 0 <= j < reversed@.len() ==> #[trigger] reversed@[j] == all[len - 1 - j],
            decreases elements@.len(),
        {
            let ghost k = elements@.len() - 1;
            let e = elements.pop().unwrap();
            let retry = retries.pop().unwrap();
            reversed.push(
                ArxmlNode {
                    depth: e.depth,
                    name: e.name,
                    item_name: e.item_name,
                    content: e.content,
                    text: e.text,
                    path: e.path,
                    target: e.target,
                    retry,
                },
            );
            assert(reversed@[reversed@.len() - 1] == all[k]);
        }
        let mut nodes: Vec<ArxmlNode> = Vec::new();
        while reversed.len() > 0
            invariant
                all.len() == len,
                reversed@.len() + nodes@.len() == len,
                forall|j: int| 0 <= j < reversed@.len() ==> #[trigger] reversed@[j] == all[len - 1 - j],
                forall|j: int| 0 <= j < nodes@.len() ==> #[trigger] nodes@[j] == all[j],
            decreases reversed@.len(),
        {
            let node = reversed.pop().unwrap();
            nodes.push(node);
        }
        assert(nodes@ =~= all);
        ArxmlDocument { nodes }
    }

    /// The element that reference element `j` resolves to once it is retried.
    pub fn retry(&self, j: usize) -> (r: Option<usize>)
        requires
            j < self@.len(),
        ensures
            match r {
                Some(t) => retry_of(self@, j as int) == Some(t as int) && t < self@.len(),
                None => retry_of(self@, j as int) is None,
            },
    {
        match &self.nodes[j].retry {
            Some(t) => self.lookup(t),
            None => None,
        }
    }

    /// The number of elements.
    pub fn len(&self) -> (r: usize)
        ensures
            r == self@.len(),
    {
        self.nodes.len()
    }

    /// Whether element `i` is named `name`.
    pub fn has_name(&self, i: usize, name: &str) -> (r: bool)
        requires
            i < self@.len(),
        ensures
            r == (self@[i as int].name@ == name@),
    {
        self.nodes[i].name == name.to_owned()
    }

    /// The XML name of element `i`.
    pub fn name(&self, i: usize) -> (r: String)
        requires
            i < self@.len(),
        ensures
            r == self@[i as int].name,
    {
        self.nodes[i].name.clone()
    }

    /// The item name of element `i`.
    pub fn item_name(&self, i: usize) -> (r: Option<String>)
        requires
            i < self@.len(),
        ensures
            r == self@[i as int].item_name,
    {
        match &self.nodes[i].item_name {
            Some(s) => Some(s.clone()),
            None => None,
        }
    }

    /// The content of element `i`.
    pub fn content(&self, i: usize) -> (r: &Option<CharData>)
        requires
            i < self@.len(),
        ensures
            *r == self@[i as int].content,
    {
        &self.nodes[i].content
    }

    /// The text of element `i`.
    pub fn text(&self, i: usize) -> (r: Option<String>)
        requires
            i < self@.len(),
        ensures
            match r {
                Some(t) => text_of(self@, i as int) == Some(t@),
                None => text_of(self@, i as int) is None,
            },
    {
        match &self.nodes[i].text {
            Some(t) => Some(t.clone()),
            None => None,
        }
    }

    /// The children of element `i`, in document order.
    pub fn children(&self, i: usize) -> (r: Vec<usize>)
        requires
            i < self@.len(),
        ensures
            r@.len() == children(self@, i as int).len(),
            idx_view(r@) == children(self@, i as int),
            forall|k: int|
                0 <= k < r@.len() ==> #[trigger] r@[k] as int == children(self@, i as int)[k]
                    && r@[k] < self@.len(),
    {
        let ghost n = self@;
        proof {
            lemma_children(n, i as int);
        }
        let mut r: Vec<usize> = Vec::new();
        let len = self.nodes.len();
        let mut j: usize = i + 1;
        while j < self.nodes.len() && self.nodes[j].depth > self.nodes[i].depth
            invariant
                n == self@,
                i < j <= n.len(),
                r@.len() + children_from(n, i as int, j as int).len() == children(n, i as int).len(),
                forall|k: int|
                    0 <= k < r@.len() ==> #[trigger] r@[k] as int == children(n, i as int)[k],
                forall|k: int|
                    0 <= k < children_from(n, i as int, j as int).len() ==> children(n, i as int)[r@.len() + k]
                        == #[trigger] children_from(n, i as int, j as int)[k],
            decreases n.len() - j,
        {
            let ghost rest = children_from(n, i as int, j as int + 1);
            if self.nodes[j].depth - 1 == self.nodes[i].depth {
                assert(children_from(n, i as int, j as int) == seq![j as int] + rest);
                assert(children_from(n, i as int, j as int)[0] == j);
                assert forall|k: int| 0 <= k < rest.len() implies children(n, i as int)[r@.len() + 1 + k]
                    == #[trigger] rest[k] by {
                    assert(children_from(n, i as int, j as int)[k + 1] == rest[k]);
                }
                r.push(j);
            }
            j = j + 1;
        }
        assert(children_from(n, i as int, j as int).len() == 0);
        assert(idx_view(r@) =~= children(n, i as int));
        r
    }

    /// The first child of element `i`.
    pub fn first_child(&self, i: usize) -> (r: Option<usize>)
        requires
            i < self@.len(),
        ensures
            match r {
                Some(j) => first_child(self@, i as int) == Some(j as int) && j < self@.len(),
                None => first_child(self@, i as int) is None,
            },
    {
        let cs = self.children(i);
        if cs.len() > 0 {
            Some(cs[0])
        } else {
            None
        }
    }

    /// The first child of element `i` named `name`.
    pub fn sub_element(&self, i: usize, name: &str) -> (r: Option<usize>)
        requires
            i < self@.len(),
        ensures
            match r {
                Some(j) => child_named(self@, i as int, name@) == Some(j as int) && j < self@.len(),
                None => child_named(self@, i as int, name@) is None,
            },
    {
        let ghost n = self@;
        let wanted = name.to_owned();
        proof {
            lemma_child_named(n, i as int, name@);
        }
        let len = self.nodes.len();
        let mut j: usize = i + 1;
        while j < self.nodes.len() && self.nodes[j].depth > self.nodes[i].depth
            invariant
                n == self@,
                wanted@ == name@,
                i < j <= n.len(),
                child_named(n, i as int, name@) == first_named(n, children_from(n, i as int, j as int), name@),
            decreases n.len() - j,
        {
            let ghost rest = children_from(n, i as int, j as int + 1);
            if self.nodes[j].depth - 1 == self.nodes[i].depth {
                assert(children_from(n, i as int, j as int) == seq![j as int] + rest);
                assert((seq![j as int] + rest)[0] == j);
                assert((seq![j as int] + rest).drop_first() =~= rest);
                if self.nodes[j].name == wanted {
                    return Some(j);
                }
            }
            j = j + 1;
        }
        None
    }

    /// The element whose path is `path`.
    pub fn lookup(&self, path: &String) -> (r: Option<usize>)
        ensures
            match r {
                Some(j) => lookup(self@, path@) == Some(j as int) && j < self@.len(),
                None => lookup(self@, path@) is None,
            },
    {
        let ghost n = self@;
        let mut k: usize = 0;
        while k < self.nodes.len()
            invariant
                n == self@,
                k <= n.len(),
                lookup(n, path@) == lookup_from(n, path@, k as int),
            decreases n.len() - k,
        {
            let found = match &self.nodes[k].path {
                Some(s) => *s == *path,
                None => false,
            };
            if found {
                return Some(k);
            }
            k = k + 1;
        }
        None
    }

    /// The element that the reference element `j` resolves to.
    pub fn target(&self, j: usize) -> (r: Option<usize>)
        requires
            j < self@.len(),
        ensures
            match r {
                Some(t) => target_of(self@, j as int) == Some(t as int) && t < self@.len(),
                None => target_of(self@, j as int) is None,
            },
    {
        match &self.nodes[j].target {
            Some(t) => self.lookup(t),
            None => None,
        }
    }

    /// The parent of element `i`.
    pub fn parent(&self, i: usize) -> (r: Option<usize>)
        requires
            i < self@.len(),
        ensures
            match r {
                Some(p) => parent(self@, i as int) == Some(p as int) && p < i,
                None => parent(self@, i as int) is None,
            },
    {
        let ghost n = self@;
        let mut k: usize = i;
        while k > 0
            invariant
                n == self@,
                k <= i < n.len(),
                parent(n, i as int) == parent_from(n, i as int, k - 1),
            decreases k,
        {
            if self.nodes[k - 1].depth < self.nodes[i].depth && self.nodes[k - 1].depth + 1
                == self.nodes[i].depth {
                return Some(k - 1);
            }
            k = k - 1;
        }
        None
    }
}

} // verus!
