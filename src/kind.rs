use vstd::prelude::*;

verus! {

/// The kind of a page. Data kinds come before index kinds in code order, so
/// that a data page is told apart by one comparison.
#[derive(Copy, Clone, Debug, PartialEq, Eq, Structural)]
pub enum PageKind {
    BaseData,
    DeltaData,
    BaseIndex,
    DeltaIndex,
}

impl PageKind {
    /// The code of a kind as stored in a page header.
    pub open spec fn code_spec(self) -> u8 {
        match self {
            PageKind::BaseData => 0,
            PageKind::DeltaData => 1,
            PageKind::BaseIndex => 32,
            PageKind::DeltaIndex => 33,
        }
    }

    /// The kind that a header code names, if any.
    pub open spec fn from_code_spec(c: u8) -> Option<PageKind> {
        if c == 0 {
            Some(PageKind::BaseData)
        } else if c == 1 {
            Some(PageKind::DeltaData)
        } else if c == 32 {
            Some(PageKind::BaseIndex)
        } else if c == 33 {
            Some(PageKind::DeltaIndex)
        } else {
            None
        }
    }

    pub open spec fn is_data_spec(self) -> bool {
        self.code_spec() < PageKind::BaseIndex.code_spec()
    }

    pub open spec fn is_delta_spec(self) -> bool {
        self is DeltaData || self is DeltaIndex
    }

    pub fn code(self) -> (c: u8)
        ensures
            c == self.code_spec(),
    {
        match self {
            PageKind::BaseData => 0,
            PageKind::DeltaData => 1,
            PageKind::BaseIndex => 32,
            PageKind::DeltaIndex => 33,
        }
    }

    pub fn from_code(c: u8) -> (k: Option<PageKind>)
        ensures
            k == PageKind::from_code_spec(c),
    {
        if c == 0 {
            Some(PageKind::BaseData)
        } else if c == 1 {
            Some(PageKind::DeltaData)
        } else if c == 32 {
            Some(PageKind::BaseIndex)
        } else if c == 33 {
            Some(PageKind::DeltaIndex)
        } else {
            None
        }
    }

    /// Whether a page of this kind belongs to the data layer.
    pub fn is_data(self) -> (r: bool)
        ensures
            r == self.is_data_spec(),
            r == (self is BaseData || self is DeltaData),
    {
        self.code() < PageKind::BaseIndex.code()
    }

    pub fn is_delta(self) -> (r: bool)
        ensures
            r == self.is_delta_spec(),
    {
        match self {
            PageKind::DeltaData | PageKind::DeltaIndex => true,
            _ => false,
        }
    }
}

/// Exactly the base and delta data kinds belong to the data layer, and every
/// data kind's code is below every index kind's code.
pub proof fn lemma_classification(k: PageKind)
    ensures
        k.is_data_spec() <==> (k == PageKind::BaseData || k == PageKind::DeltaData),
        PageKind::from_code_spec(k.code_spec()) == Some(k),
        forall|j: PageKind| k.is_data_spec() && !j.is_data_spec() ==> k.code_spec() < j.code_spec(),
{
}

} // verus!
