use vstd::prelude::*;

verus! {

/// A value of the catalog's remote-procedure-call wire format.
///
/// Structs keep their fields in order; a lookup finds the first field of
/// that name.
#[derive(Debug)]
pub enum RpcValue {
    Int(i64),
    Bool(bool),
    Str(String),
    Struct(Vec<(String, RpcValue)>),
    Array(Vec<RpcValue>),
    /// Any other scalar (a double, a date, binary data, nil): nothing here reads one.
    Other,
}

/// A remote call: the method's name and its parameters.
#[derive(Debug)]
pub struct Request {
    pub method: String,
    pub params: Vec<RpcValue>,
}

/// The value of the first field of `fields` named `key`.
pub open spec fn lookup(fields: Seq<(String, RpcValue)>, key: Seq<char>) -> Option<RpcValue>
    decreases fields.len(),
{
    if fields.len() == 0 {
        None
    } else if fields[0].0@ == key {
        Some(fields[0].1)
    } else {
        lookup(fields.drop_first(), key)
    }
}

impl RpcValue {
    /// The field `key` of a struct; `None` for a missing field or a value that is no struct.
    pub open spec fn field(self, key: Seq<char>) -> Option<RpcValue> {
        match self {
            RpcValue::Struct(fields) => lookup(fields@, key),
            _ => None,
        }
    }

    /// The text of a string value.
    pub open spec fn text(self) -> Option<Seq<char>> {
        match self {
            RpcValue::Str(s) => Some(s@),
            _ => None,
        }
    }

    /// The elements of an array value.
    pub open spec fn elements(self) -> Option<Seq<RpcValue>> {
        match self {
            RpcValue::Array(items) => Some(items@),
            _ => None,
        }
    }

    /// The text of the string field `key`.
    pub open spec fn text_field(self, key: Seq<char>) -> Option<Seq<char>> {
        match self.field(key) {
            Some(v) => v.text(),
            None => None,
        }
    }

    /// Looks up the field `key` of a struct.
    pub fn get(&self, key: &str) -> (r: Option<&RpcValue>)
        ensures
            match r {
                Some(v) => self.field(key@) == Some(*v),
                None => self.field(key@) is None,
            },
    {
        match self {
            RpcValue::Struct(fields) => {
                let wanted = key.to_owned();
                let mut i: usize = 0;
                assert(fields@.skip(0) =~= fields@);
                while i < fields.len()
                    invariant
                        i <= fields@.len(),
                        wanted@ == key@,
                        self.field(key@) == lookup(fields@, key@),
                        lookup(fields@, key@) == lookup(fields@.skip(i as int), key@),
                    decreases fields@.len() - i,
                {
                    assert(fields@.skip(i as int).drop_first() =~= fields@.skip(i + 1));
                    assert(fields@.skip(i as int)[0] == fields@[i as int]);
                    if fields[i].0 == wanted {
                        let found = &fields[i].1;
                        return Some(found);
                    }
                    i += 1;
                }
                None
            },
            _ => None,
        }
    }

    /// The text of a string value.
    pub fn as_str(&self) -> (r: Option<&str>)
        ensures
            match r {
                Some(s) => self.text() == Some(s@),
                None => self.text() is None,
            },
    {
        match self {
            RpcValue::Str(s) => Some(s.as_str()),
            _ => None,
        }
    }

    /// The elements of an array value.
    pub fn as_array(&self) -> (r: Option<&Vec<RpcValue>>)
        ensures
            match r {
                Some(v) => self.elements() == Some(v@),
                None => self.elements() is None,
            },
    {
        match self {
            RpcValue::Array(items) => Some(items),
            _ => None,
        }
    }

    /// The text of the string field `key`.
    pub fn get_str(&self, key: &str) -> (r: Option<&str>)
        ensures
            match r {
                Some(s) => self.text_field(key@) == Some(s@),
                None => self.text_field(key@) is None,
            },
    {
        match self.get(key) {
            Some(v) => v.as_str(),
            None => None,
        }
    }
}

} // verus!
