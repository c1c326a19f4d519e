//! The remaining output encodings of a derivation result: JSON, base64 and
//! a QR code rendered as SVG.  All of them are pure formatting over the
//! already-derived password; none re-runs the derivation.

use crate::errors::Error;
use crate::json::json_string_of;
use crate::json::write_json_string;
use crate::text::push_char;
use crate::PasswordResult;
use base64::Engine;
use vstd::prelude::*;

verus! {

/// The JSON rendering of a result: an object with the password, the
/// algorithm name and the version, in that order.
pub open spec fn json_of_result(pass: Seq<char>, alg: Seq<char>, ver: Seq<char>) -> Seq<char> {
    seq!['{'] + json_string_of("pass"@) + seq![':'] + json_string_of(pass) + seq![',']
        + json_string_of("alg"@) + seq![':'] + json_string_of(alg) + seq![','] + json_string_of(
        "ver"@,
    ) + seq![':'] + json_string_of(ver) + seq!['}']
}

/// What base64's standard-alphabet, unpadded engine returns for a byte
/// string.  The value depends on the bytes alone.
pub uninterp spec fn base64_of(bytes: Seq<u8>) -> Seq<char>;

/// Relies on base64's STANDARD_NO_PAD engine: the standard alphabet without
/// padding, a pure function of the input bytes; an empty input encodes to an
/// empty text.
#[verifier::external_body]
fn base64_encode(bytes: &[u8]) -> (r: String)
    ensures
        r@ == base64_of(bytes@),
        bytes@.len() == 0 ==> r@.len() == 0,
{
    base64::engine::general_purpose::STANDARD_NO_PAD.encode(bytes)
}

/// What qrcode's SVG renderer returns for given data at a given version,
/// error-correction level Q and 350x350 minimum dimensions.  The value
/// depends on the data and version alone.
pub uninterp spec fn qr_svg_of(data: Seq<u8>, version: int) -> Seq<char>;

/// Whether qrcode accepts the data at the given version and level Q: it
/// does exactly when the data fits that version's capacity, a function of
/// the data and version alone.
pub uninterp spec fn qr_renders(data: Seq<u8>, version: int) -> bool;

/// Relies on qrcode::QrCode::with_version at error-correction level Q and
/// its SVG renderer with 350x350 minimum dimensions, black on white: the
/// rendering is a pure function of the data and the version, and encoding
/// fails exactly when the data does not fit the requested version at that
/// level — also a condition on the data and version alone.
#[verifier::external_body]
fn render_qr_svg(data: &[u8], version: i16) -> (r: Result<String, String>)
    ensures
        r is Ok <==> qr_renders(data@, version as int),
        r matches Ok(s) ==> s@ == qr_svg_of(data@, version as int),
{
    let qr = match qrcode::QrCode::with_version(
        data,
        qrcode::Version::Normal(version),
        qrcode::EcLevel::Q,
    ) {
        Ok(qr) => qr,
        Err(e) => {
            return Err(e.to_string());
        },
    };
    let svg = qr.render().min_dimensions(350, 350).dark_color(
        qrcode::render::svg::Color("#000000"),
    ).light_color(qrcode::render::svg::Color("#ffffff")).build();
    Ok(svg)
}

/// The QR version used for a password of the given byte length.
pub open spec fn qr_version_for(len: nat) -> int {
    if len <= 16 {
        2
    } else if len <= 32 {
        4
    } else if len <= 48 {
        5
    } else {
        6
    }
}

impl PasswordResult {
    /// Renders the result as a JSON object `{pass, alg, ver}`.
    pub fn to_json(self) -> (r: Result<String, Error>)
        ensures
            r matches Ok(s) && s@ == json_of_result(self.pass@, self.alg@, self.ver@),
    {
        let mut out = String::new();
        push_char(&mut out, '{');
        write_json_string(&mut out, "pass");
        push_char(&mut out, ':');
        write_json_string(&mut out, self.pass.as_str());
        push_char(&mut out, ',');
        write_json_string(&mut out, "alg");
        push_char(&mut out, ':');
        write_json_string(&mut out, self.alg.as_str());
        push_char(&mut out, ',');
        write_json_string(&mut out, "ver");
        push_char(&mut out, ':');
        write_json_string(&mut out, self.ver.as_str());
        push_char(&mut out, '}');
        proof {
            assert(out@ =~= json_of_result(self.pass@, self.alg@, self.ver@));
        }
        Ok(out)
    }

    /// Encodes the password in unpadded standard base64.
    pub fn to_base64(self) -> (r: String)
        ensures
            r@ == base64_of(vstd::utf8::encode_utf8(self.pass@)),
    {
        base64_encode(self.pass.as_str().as_bytes())
    }

    /// Renders the password as an SVG QR code.  The QR version grows with
    /// the password's byte length; the error-correction level is always Q.
    /// Rendering succeeds exactly when the password fits the selected
    /// version.
    pub fn to_qr(self) -> (r: Result<String, Error>)
        ensures
            ({
                let data = vstd::utf8::encode_utf8(self.pass@);
                &&& (r is Ok <==> qr_renders(data, qr_version_for(data.len())))
                &&& match r {
                    Ok(s) => s@ == qr_svg_of(data, qr_version_for(data.len())),
                    Err(e) => e is InvalidQrError,
                }
            }),
    {
        let bytes = self.pass.as_str().as_bytes();
        let version: i16 = if bytes.len() <= 16 {
            2
        } else if bytes.len() <= 32 {
            4
        } else if bytes.len() <= 48 {
            5
        } else {
            6
        };
        match render_qr_svg(bytes, version) {
            Ok(svg) => Ok(svg),
            Err(msg) => Err(Error::InvalidQrError(msg)),
        }
    }
}


/// The output encodings a caller can request for one derivation result.
#[derive(Clone, Copy, PartialEq, Eq, Structural, Debug)]
pub enum PasswordOutputType {
    /// The password text alone.
    Text,
    /// The compact tag format `$<alg>$v=<ver>$<pass>`.
    PHC,
    /// Unpadded standard base64 of the password bytes.
    Base64,
    /// A JSON object `{pass, alg, ver}`.
    Json,
    /// An SVG QR code.
    Qr,
}

impl PasswordResult {
    /// Renders the result in the requested encoding; pure formatting, the
    /// derivation is never re-run.
    pub fn to_formatted_string(self, output_type: PasswordOutputType) -> (r: Result<String, Error>)
        ensures
            ({
                let data = vstd::utf8::encode_utf8(self.pass@);
                match output_type {
                    PasswordOutputType::Text => r matches Ok(s) && s@ == self.pass@,
                    PasswordOutputType::PHC => r matches Ok(s) && s@ == crate::phc_of(
                        self.alg@,
                        self.ver@,
                        self.pass@,
                    ),
                    PasswordOutputType::Base64 => r matches Ok(s) && s@ == base64_of(data),
                    PasswordOutputType::Json => r matches Ok(s) && s@ == json_of_result(
                        self.pass@,
                        self.alg@,
                        self.ver@,
                    ),
                    PasswordOutputType::Qr => {
                        &&& (r is Ok <==> qr_renders(data, qr_version_for(data.len())))
                        &&& (r matches Ok(s) ==> s@ == qr_svg_of(
                            data,
                            qr_version_for(data.len()),
                        ))
                        &&& (r matches Err(e) ==> e is InvalidQrError)
                    },
                }
            }),
    {
        match output_type {
            PasswordOutputType::Text => Ok(self.pass),
            PasswordOutputType::PHC => Ok(self.to_phc()),
            PasswordOutputType::Base64 => Ok(self.to_base64()),
            PasswordOutputType::Json => self.to_json(),
            PasswordOutputType::Qr => self.to_qr(),
        }
    }
}

} // verus!
