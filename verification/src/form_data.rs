//! The fields and files of a `multipart/form-data` body.

use vstd::prelude::*;
use vstd::string::*;

use crate::bytes::extend_bytes;
use crate::error::MultipartError;
use crate::headers::{parse_options, parse_options_value, HeaderSyntaxError};
use crate::string_map::StringMap;
use crate::text::{ascii_lower, chars_of, to_ascii_lower};

verus! {

/// A form field (no file name) or a file, with the data received for it so far.
#[derive(Debug, Clone)]
pub enum FormData {
    Field { name: String, content_type: String, charset: String, data: Vec<u8> },
    File {
        name: String,
        filename: String,
        content_type: String,
        charset: String,
        data: Vec<u8>,
    },
}

/// The content of a form part: a field where `filename` is `None`, a file otherwise.
#[verifier::ext_equal]
pub struct FormDataView {
    pub name: Seq<char>,
    pub filename: Option<Seq<char>>,
    pub content_type: Seq<char>,
    pub charset: Seq<char>,
    pub data: Seq<u8>,
}

impl View for FormData {
    type V = FormDataView;

    open spec fn view(&self) -> FormDataView {
        match self {
            FormData::Field { name, content_type, charset, data } => FormDataView {
                name: name@,
                filename: None,
                content_type: content_type@,
                charset: charset@,
                data: data@,
            },
            FormData::File { name, filename, content_type, charset, data } => FormDataView {
                name: name@,
                filename: Some(filename@),
                content_type: content_type@,
                charset: charset@,
                data: data@,
            },
        }
    }
}

/// `v` with `more` appended to its data.
pub open spec fn with_data(v: FormDataView, more: Seq<u8>) -> FormDataView {
    FormDataView { data: v.data + more, ..v }
}

/// The value of `key` in `m`, or `default` where `m` has none.
pub open spec fn get_or(m: Map<Seq<char>, Seq<char>>, key: Seq<char>, default: Seq<char>) -> Seq<
    char,
> {
    if m.contains_key(key) {
        m[key]
    } else {
        default
    }
}

/// The media type and parameters of a part: from its `content-type` header, `text/plain` with no
/// parameters where it has none.
pub open spec fn part_content_type(headers: Map<Seq<char>, Seq<char>>) -> Result<
    (Seq<char>, Map<Seq<char>, Seq<char>>),
    HeaderSyntaxError,
> {
    if headers.contains_key("content-type"@) {
        parse_options(headers["content-type"@])
    } else {
        Ok(("text/plain"@, Map::empty()))
    }
}

/// The form part that a part's headers (keyed by lower-case name) announce, with no data yet.
#[verifier::opaque]
pub open spec fn form_data_from_headers(headers: Map<Seq<char>, Seq<char>>) -> Result<
    FormDataView,
    MultipartError,
> {
    match part_content_type(headers) {
        Err(e) => Err(MultipartError::HeaderSyntax(e)),
        Ok((content_type, type_params)) => {
            if !headers.contains_key("content-disposition"@) {
                Err(MultipartError::MissingContentDisposition)
            } else {
                match parse_options(headers["content-disposition"@]) {
                    Err(e) => Err(MultipartError::HeaderSyntax(e)),
                    Ok((disposition, params)) => {
                        if ascii_lower(disposition) != ascii_lower("form-data"@) {
                            Err(MultipartError::InvalidContentDisposition)
                        } else if !params.contains_key("name"@) {
                            Err(MultipartError::MissingNameParameter)
                        } else {
                            Ok(
                                FormDataView {
                                    name: params["name"@],
                                    filename: if params.contains_key("filename"@) {
                                        Some(params["filename"@])
                                    } else {
                                        None
                                    },
                                    content_type,
                                    charset: get_or(type_params, "charset"@, "utf-8"@),
                                    data: Seq::empty(),
                                },
                            )
                        }
                    },
                }
            }
        },
    }
}

/// What the form part of a part's headers is made of: its name is the `name` parameter of its
/// `content-disposition`; it is a file exactly when that header has a `filename` parameter, of
/// whatever value, empty too; its media type is the leading value of its `content-type`, and
/// `text/plain` without one; its charset is the `charset` parameter of its `content-type`, and
/// `utf-8` without one or without that parameter; it has no data yet. And the headers give a
/// form part exactly when a present `content-type` parses, `content-disposition` is present and
/// parses to `form-data` (in any case) with a `name` parameter.
pub proof fn lemma_form_part_of_headers(headers: Map<Seq<char>, Seq<char>>)
    ensures
        form_data_from_headers(headers) is Ok <==> {
            &&& headers.contains_key("content-type"@) ==> parse_options(headers["content-type"@]) is Ok
            &&& headers.contains_key("content-disposition"@)
            &&& parse_options(headers["content-disposition"@]) is Ok
            &&& ascii_lower((parse_options(headers["content-disposition"@])->Ok_0).0)
                == ascii_lower("form-data"@)
            &&& (parse_options(headers["content-disposition"@])->Ok_0).1.contains_key("name"@)
        },
        form_data_from_headers(headers) matches Ok(f) ==> {
            let params = (parse_options(headers["content-disposition"@])->Ok_0).1;
            &&& f.name == params["name"@]
            &&& (f.filename is Some <==> params.contains_key("filename"@))
            &&& (params.contains_key("filename"@) ==> f.filename == Some(params["filename"@]))
            &&& !headers.contains_key("content-type"@) ==> f.content_type == "text/plain"@
            &&& headers.contains_key("content-type"@) ==> f.content_type == (parse_options(
                headers["content-type"@],
            )->Ok_0).0
            &&& !headers.contains_key("content-type"@) ==> f.charset == "utf-8"@
            &&& headers.contains_key("content-type"@) && (parse_options(
                headers["content-type"@],
            )->Ok_0).1.contains_key("charset"@) ==> f.charset == (parse_options(
                headers["content-type"@],
            )->Ok_0).1["charset"@]
            &&& headers.contains_key("content-type"@) && !(parse_options(
                headers["content-type"@],
            )->Ok_0).1.contains_key("charset"@) ==> f.charset == "utf-8"@
            &&& f.data == Seq::<u8>::empty()
        },
        headers.contains_key("content-type"@) && parse_options(headers["content-type"@]) is Err
            ==> form_data_from_headers(headers) == Err::<FormDataView, MultipartError>(
            MultipartError::HeaderSyntax(parse_options(headers["content-type"@])->Err_0),
        ),
        !(headers.contains_key("content-type"@) && parse_options(headers["content-type"@]) is Err)
            && !headers.contains_key("content-disposition"@) ==> form_data_from_headers(headers)
            == Err::<FormDataView, MultipartError>(MultipartError::MissingContentDisposition),
        !(headers.contains_key("content-type"@) && parse_options(headers["content-type"@]) is Err)
            && headers.contains_key("content-disposition"@) && parse_options(
            headers["content-disposition"@],
        ) is Err ==> form_data_from_headers(headers) == Err::<FormDataView, MultipartError>(
            MultipartError::HeaderSyntax(parse_options(headers["content-disposition"@])->Err_0),
        ),
        !(headers.contains_key("content-type"@) && parse_options(headers["content-type"@]) is Err)
            && headers.contains_key("content-disposition"@) && parse_options(
            headers["content-disposition"@],
        ) is Ok && ascii_lower((parse_options(headers["content-disposition"@])->Ok_0).0)
            != ascii_lower("form-data"@) ==> form_data_from_headers(headers) == Err::<
            FormDataView,
            MultipartError,
        >(MultipartError::InvalidContentDisposition),
        !(headers.contains_key("content-type"@) && parse_options(headers["content-type"@]) is Err)
            && headers.contains_key("content-disposition"@) && parse_options(
            headers["content-disposition"@],
        ) is Ok && ascii_lower((parse_options(headers["content-disposition"@])->Ok_0).0)
            == ascii_lower("form-data"@) && !(parse_options(
            headers["content-disposition"@],
        )->Ok_0).1.contains_key("name"@) ==> form_data_from_headers(headers) == Err::<
            FormDataView,
            MultipartError,
        >(MultipartError::MissingNameParameter),
{
    reveal(form_data_from_headers);
}

/// Whether `a` and `b` are equal when ASCII letters are compared without regard to case.
pub fn eq_ignore_ascii_case(a: &str, b: &str) -> (r: bool)
    ensures
        r == (ascii_lower(a@) == ascii_lower(b@)),
{
    let x = chars_of(a);
    let y = chars_of(b);
    let lx = to_ascii_lower(x.as_slice());
    let ly = to_ascii_lower(y.as_slice());
    if lx.len() != ly.len() {
        return false;
    }
    let mut i: usize = 0;
    while i < lx.len()
        invariant
            lx@.len() == ly@.len(),
            lx@ == ascii_lower(a@),
            ly@ == ascii_lower(b@),
            i <= lx@.len(),
            forall|j: int| 0 <= j < i ==> lx@[j] == ly@[j],
        decreases lx@.len() - i,
    {
        if lx[i] != ly[i] {
            assert(lx@[i as int] != ly@[i as int]);
            return false;
        }
        i += 1;
    }
    assert(lx@ =~= ly@);
    true
}

impl FormData {
    /// Appends `data` to the data received for this part.
    pub fn append_data(&mut self, data: &[u8])
        ensures
            final(self)@ == with_data(old(self)@, data@),
    {
        match self {
            FormData::Field { data: field_data, .. } => extend_bytes(field_data, data),
            FormData::File { data: field_data, .. } => extend_bytes(field_data, data),
        }
    }

    /// The form part that a part's headers (keyed by lower-case name) announce, with no data yet.
    pub fn from_headers(headers: StringMap) -> (r: Result<FormData, MultipartError>)
        ensures
            match r {
                Ok(f) => form_data_from_headers(headers@) == Ok::<FormDataView, MultipartError>(
                    f@,
                ),
                Err(e) => form_data_from_headers(headers@) == Err::<FormDataView, MultipartError>(
                    e,
                ),
            },
            r matches Ok(f) ==> {
                let params = (parse_options(headers@["content-disposition"@])->Ok_0).1;
                &&& f@.name == params["name"@]
                &&& (f is File <==> params.contains_key("filename"@))
                &&& (params.contains_key("filename"@) ==> f@.filename == Some(params["filename"@]))
                &&& !headers@.contains_key("content-type"@) ==> f@.content_type == "text/plain"@
                &&& headers@.contains_key("content-type"@) ==> f@.content_type == (parse_options(
                    headers@["content-type"@],
                )->Ok_0).0
                &&& !headers@.contains_key("content-type"@) ==> f@.charset == "utf-8"@
                &&& headers@.contains_key("content-type"@) && (parse_options(
                    headers@["content-type"@],
                )->Ok_0).1.contains_key("charset"@) ==> f@.charset == (parse_options(
                    headers@["content-type"@],
                )->Ok_0).1["charset"@]
                &&& headers@.contains_key("content-type"@) && !(parse_options(
                    headers@["content-type"@],
                )->Ok_0).1.contains_key("charset"@) ==> f@.charset == "utf-8"@
                &&& f@.data == Seq::<u8>::empty()
            },
    {
        proof {
            lemma_form_part_of_headers(headers@);
        }
        reveal(form_data_from_headers);
        let (content_type, type_params) = match headers.get("content-type") {
            Some(value) => match parse_options_value(value.as_str()) {
                Ok(parsed) => parsed,
                Err(e) => return Err(MultipartError::HeaderSyntax(e)),
            },
            None => (String::from_str("text/plain"), StringMap::new()),
        };
        let charset = match type_params.get("charset") {
            Some(c) => c.clone(),
            None => String::from_str("utf-8"),
        };
        let content_disposition = match headers.get("content-disposition") {
            Some(value) => value,
            None => return Err(MultipartError::MissingContentDisposition),
        };
        let (disposition, params) = match parse_options_value(content_disposition.as_str()) {
            Ok(parsed) => parsed,
            Err(e) => return Err(MultipartError::HeaderSyntax(e)),
        };
        if !eq_ignore_ascii_case(disposition.as_str(), "form-data") {
            return Err(MultipartError::InvalidContentDisposition);
        }
        let name = match params.get("name") {
            Some(n) => n.clone(),
            None => return Err(MultipartError::MissingNameParameter),
        };
        match params.get("filename") {
            Some(filename) => Ok(
                FormData::File {
                    name,
                    filename: filename.clone(),
                    content_type,
                    charset,
                    data: Vec::new(),
                },
            ),
            None => Ok(FormData::Field { name, content_type, charset, data: Vec::new() }),
        }
    }
}

} // verus!
