use submillisecond::extract::{FailedToDeserializeQueryString, Splat};
use submillisecond::reader::UriReader;

#[test]
fn splat_is_the_rest_of_the_uri() {
    let mut reader = UriReader::new("/foo-bar".to_string());
    reader.read(5);
    let Splat(splat) = Splat::from_reader(&reader);
    assert_eq!(splat, "bar");
}

#[test]
fn query_rejection_message() {
    let r = FailedToDeserializeQueryString::__private_new("Pagination", "missing field".to_string());
    assert_eq!(
        r.message(),
        "Failed to deserialize query string. Expected something of type `Pagination`. Error: missing field"
    );
}
