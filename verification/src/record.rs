use vstd::prelude::*;

verus! {

/// Mathematical model of an [`Item`]: the line text and its timestamp key.
pub ghost struct ItemView {
    pub data: Seq<char>,
    pub key: u64,
}

/// The models of a sequence of items, in order.
pub open spec fn views_of(s: Seq<Item>) -> Seq<ItemView> {
    s.map_values(|it: Item| it@)
}

/// The views of a sequence of strings.
pub open spec fn texts(ss: Seq<String>) -> Seq<Seq<char>> {
    ss.map_values(|s: String| s@)
}

/// One parsed log line: the original text (`data`) together with the
/// timestamp key (`key`, Unix seconds) extracted from it.
///
/// Ordering between items is defined solely by `key`; two items with equal
/// keys compare as equal even when their payloads differ.
#[derive(Debug, Clone)]
pub struct Item {
    data: String,
    key: u64,
}

impl View for Item {
    type V = ItemView;

    closed spec fn view(&self) -> ItemView {
        ItemView { data: self.data@, key: self.key }
    }
}

impl Item {
    pub fn new(data: String, key: u64) -> (item: Item)
        ensures
            item@.data == data@,
            item@.key == key,
    {
        Item { data, key }
    }

    /// The timestamp key, in Unix seconds.
    pub fn key(&self) -> (k: u64)
        ensures
            k == self@.key,
    {
        self.key
    }

    /// The original, unmodified line.
    pub fn data(&self) -> (d: &String)
        ensures
            d@ == self@.data,
    {
        &self.data
    }
}

impl PartialEq for Item {
    fn eq(&self, other: &Item) -> (r: bool) {
        self.key == other.key
    }
}

impl vstd::std_specs::cmp::PartialEqSpecImpl for Item {
    open spec fn obeys_eq_spec() -> bool {
        true
    }

    open spec fn eq_spec(&self, other: &Item) -> bool {
        self@.key == other@.key
    }
}

impl Eq for Item {

}

impl PartialOrd for Item {
    fn partial_cmp(&self, other: &Item) -> (r: Option<core::cmp::Ordering>) {
        if self.key < other.key {
            Some(core::cmp::Ordering::Less)
        } else if self.key > other.key {
            Some(core::cmp::Ordering::Greater)
        } else {
            Some(core::cmp::Ordering::Equal)
        }
    }
}

impl vstd::std_specs::cmp::PartialOrdSpecImpl for Item {
    open spec fn obeys_partial_cmp_spec() -> bool {
        true
    }

    open spec fn partial_cmp_spec(&self, other: &Item) -> Option<core::cmp::Ordering> {
        if self@.key < other@.key {
            Some(core::cmp::Ordering::Less)
        } else if self@.key > other@.key {
            Some(core::cmp::Ordering::Greater)
        } else {
            Some(core::cmp::Ordering::Equal)
        }
    }
}

} // verus!
