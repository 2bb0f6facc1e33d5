use vstd::prelude::*;

verus! {

/// What an item is, mathematically: its flow, its weight and its payload bytes.
pub struct ItemView {
    pub flow_key: u64,
    pub weight: u64,
    pub data: Seq<u8>,
}

impl ItemView {
    /// The number of payload bytes the item accounts for.
    pub open spec fn size(self) -> nat {
        self.data.len()
    }

    /// Weight and size are both at least one.
    pub open spec fn wf(self) -> bool {
        self.weight >= 1 && self.data.len() >= 1
    }
}

/// A payload tagged with the flow it belongs to and a fairness weight.
#[derive(Debug, Clone)]
pub struct Item {
    flow_key: u64,
    weight: u64,
    data: Vec<u8>,
}

impl View for Item {
    type V = ItemView;

    closed spec fn view(&self) -> ItemView {
        ItemView { flow_key: self.flow_key, weight: self.weight, data: self.data@ }
    }
}

impl Item {
    /// Builds an item. A zero weight or an empty payload is a contract violation.
    pub fn new(flow_key: u64, weight: u64, data: Vec<u8>) -> (r: Self)
        requires
            weight >= 1,
            data@.len() >= 1,
        ensures
            r@ == (ItemView { flow_key, weight, data: data@ }),
            r@.wf(),
    {
        Self { flow_key, weight, data }
    }

    pub fn flow_key(&self) -> (r: &u64)
        ensures
            *r == self@.flow_key,
    {
        &self.flow_key
    }

    pub fn weight(&self) -> (r: u64)
        ensures
            r == self@.weight,
    {
        self.weight
    }

    pub fn data(&self) -> (r: &Vec<u8>)
        ensures
            r@ == self@.data,
    {
        &self.data
    }

    pub fn into_data(self) -> (r: Vec<u8>)
        ensures
            r@ == self@.data,
    {
        self.data
    }

    /// The number of payload bytes.
    pub fn data_size(&self) -> (r: usize)
        ensures
            r == self@.size(),
    {
        self.data.len()
    }
}

} // verus!
