use vstd::prelude::*;

verus! {

/// Hardware requirement text for one platform, as the catalog reports it.
#[derive(Debug, PartialEq, Eq)]
pub struct Requirements {
    pub minimum: Option<String>,
    pub recommended: Option<String>,
}

/// Mathematical value of a [`Requirements`].
#[verifier::ext_equal]
pub ghost struct ReqV {
    pub minimum: Option<Seq<char>>,
    pub recommended: Option<Seq<char>>,
}

impl View for Requirements {
    type V = ReqV;

    open spec fn view(&self) -> ReqV {
        ReqV { minimum: self.minimum.deep_view(), recommended: self.recommended.deep_view() }
    }
}

/// One catalog record: the metadata kept for a single item.
///
/// The catalog's full schema is much wider; the store treats the record as an
/// opaque payload, so only a representative selection of fields is modeled
/// here, anchored by the numeric identifier.
#[derive(Debug, PartialEq, Eq)]
pub struct AppDetails {
    pub id: i64,
    pub name: String,
    pub is_free: bool,
    pub short_description: String,
    pub pc_requirements: Requirements,
}

/// Mathematical value of an [`AppDetails`].
#[verifier::ext_equal]
pub ghost struct RecordV {
    pub id: i64,
    pub name: Seq<char>,
    pub is_free: bool,
    pub short_description: Seq<char>,
    pub pc_requirements: ReqV,
}

impl View for AppDetails {
    type V = RecordV;

    open spec fn view(&self) -> RecordV {
        RecordV {
            id: self.id,
            name: self.name@,
            is_free: self.is_free,
            short_description: self.short_description@,
            pc_requirements: self.pc_requirements@,
        }
    }
}

impl Clone for Requirements {
    fn clone(&self) -> (res: Self)
        ensures
            res == *self,
    {
        Requirements {
            minimum: match &self.minimum {
                Option::Some(s) => Option::Some(s.clone()),
                Option::None => Option::None,
            },
            recommended: match &self.recommended {
                Option::Some(s) => Option::Some(s.clone()),
                Option::None => Option::None,
            },
        }
    }
}

impl Clone for AppDetails {
    fn clone(&self) -> (res: Self)
        ensures
            res == *self,
    {
        AppDetails {
            id: self.id,
            name: self.name.clone(),
            is_free: self.is_free,
            short_description: self.short_description.clone(),
            pc_requirements: self.pc_requirements.clone(),
        }
    }
}

} // verus!
