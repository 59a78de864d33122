use afluencia::line_protocol::{
    double_backslashes_before_quotes, escape_keys_and_tags, escape_measurement, escape_string_field_value, line_serialization,
    DataPoint, EncodeError, Value,
};

#[test]
fn line_serialization_of_valid_datapoint_works() {
    let mut test_data_point = DataPoint::new("measurement_name");
    test_data_point.add_tag("testtag", Value::String(String::from("tagvalue")));
    test_data_point.add_field("string_field", Value::String(String::from("string_value")));
    test_data_point.add_field("float_field", Value::Float(1.2345f64.to_string()));
    test_data_point.add_field("int_field", Value::Integer(12345));
    test_data_point.add_field("bool_field", Value::Boolean(true));
    test_data_point.add_timestamp(1_234_567_890);

    let serialized_data_point = line_serialization(test_data_point).unwrap();

    assert_eq!("measurement_name,testtag=tagvalue bool_field=true,float_field=1.2345,int_field=12345i,string_field=\"string_value\" 1234567890\n", serialized_data_point);
}

fn sample_point() -> DataPoint {
    let mut p = DataPoint::new("cpu load");
    p.add_tag("host", Value::String(String::from("a,b")));
    p.add_field("value", Value::Integer(-7));
    p.add_timestamp(42);
    p
}

#[test]
fn encoding_is_deterministic() {
    let first = line_serialization(sample_point()).unwrap();
    let second = line_serialization(sample_point()).unwrap();
    assert_eq!(first, second);
    assert_eq!("cpu\\ load,host=a\\,b value=-7i 42\n", first);
}

#[test]
fn tags_and_fields_are_ordered_by_key() {
    let mut a = DataPoint::new("m");
    a.add_tag("zone", Value::String(String::from("z")));
    a.add_tag("alpha", Value::String(String::from("a")));
    a.add_field("b", Value::Integer(2));
    a.add_field("a", Value::Integer(1));
    a.add_field("aa", Value::Integer(3));

    let mut b = DataPoint::new("m");
    b.add_field("aa", Value::Integer(3));
    b.add_field("a", Value::Integer(1));
    b.add_tag("alpha", Value::String(String::from("a")));
    b.add_field("b", Value::Integer(2));
    b.add_tag("zone", Value::String(String::from("z")));

    let la = line_serialization(a).unwrap();
    let lb = line_serialization(b).unwrap();
    assert_eq!("m,alpha=a,zone=z a=1i,aa=3i,b=2i\n", la);
    assert_eq!(la, lb);
}

#[test]
fn order_uses_code_points() {
    let mut p = DataPoint::new("m");
    p.add_field("b", Value::Boolean(false));
    p.add_field("B", Value::Boolean(true));
    p.add_field("\u{e9}", Value::Boolean(true));
    assert_eq!("m B=true,b=false,\u{e9}=true\n", line_serialization(p).unwrap());
}

#[test]
fn setting_a_key_again_replaces_its_value() {
    let mut p = DataPoint::new("m");
    p.add_field("x", Value::Integer(1));
    p.add_field("x", Value::Integer(2));
    p.add_tag("t", Value::String(String::from("old")));
    p.add_tag("t", Value::String(String::from("new")));
    assert_eq!("m,t=new x=2i\n", line_serialization(p).unwrap());
}

#[test]
fn special_characters_are_escaped() {
    let mut p = DataPoint::new("a,b c=d");
    p.add_tag("k,e y=", Value::String(String::from("v a,l=")));
    p.add_field("f =,", Value::String(String::from("say \"hi\", x=1")));
    assert_eq!(
        "a\\,b\\ c=d,k\\,e\\ y\\==v\\ a\\,l\\= f\\ \\=\\,=\"say \\\"hi\\\", x=1\"\n",
        line_serialization(p).unwrap()
    );
}

#[test]
fn escape_functions() {
    assert_eq!("a\\,b\\ c=d", escape_measurement("a,b c=d"));
    assert_eq!("a\\,b\\ c\\=d", escape_keys_and_tags("a,b c=d"));
    assert_eq!("\"plain\"", escape_string_field_value("plain"));
    assert_eq!("\"\\\"q\\\"\"", escape_string_field_value("\"q\""));
    // only the double quote gets a backslash
    assert_eq!("\"a\\\\\"b\"", escape_string_field_value("a\\\"b"));
    // other backslashes stay as they are
    assert_eq!("\"c:\\dir\"", escape_string_field_value("c:\\dir"));
    assert_eq!("\u{fc}n\u{ee}", escape_keys_and_tags("\u{fc}n\u{ee}"));
}

#[test]
fn value_kinds_render_as_on_the_wire() {
    let mut p = DataPoint::new("m");
    p.add_field("i", Value::Integer(i64::MIN));
    p.add_field("j", Value::Integer(0));
    p.add_field("f", Value::Float((-0.5f64).to_string()));
    p.add_field("g", Value::Float(3.0f64.to_string()));
    p.add_field("t", Value::Boolean(true));
    p.add_field("u", Value::Boolean(false));
    assert_eq!(
        "m f=-0.5,g=3,i=-9223372036854775808i,j=0i,t=true,u=false\n",
        line_serialization(p).unwrap()
    );
}

#[test]
fn timestamp_segment() {
    let mut p = DataPoint::new("m");
    p.add_field("v", Value::Integer(1));
    assert_eq!("m v=1i\n", line_serialization(p).unwrap());

    let mut q = DataPoint::new("m");
    q.add_field("v", Value::Integer(1));
    q.add_timestamp(-15);
    assert_eq!("m v=1i -15\n", line_serialization(q).unwrap());
}

#[test]
fn empty_tag_set_has_no_tag_segment() {
    let mut p = DataPoint::new("m");
    p.add_field("v", Value::String(String::new()));
    assert_eq!("m v=\"\"\n", line_serialization(p).unwrap());
}

#[test]
fn point_without_fields_is_rejected() {
    let mut p = DataPoint::new("m");
    p.add_tag("t", Value::String(String::from("x")));
    assert_eq!(Err(EncodeError::NoFields), line_serialization(p));
}

#[test]
fn empty_measurement_is_rejected() {
    let mut p = DataPoint::new("");
    p.add_field("v", Value::Integer(1));
    assert_eq!(Err(EncodeError::EmptyMeasurement), line_serialization(p));
}

#[test]
fn non_text_tag_is_rejected() {
    let mut p = DataPoint::new("m");
    p.add_tag("t", Value::Integer(3));
    p.add_field("v", Value::Integer(1));
    assert_eq!(Err(EncodeError::NonTextTag), line_serialization(p));
}

#[test]
fn malformed_float_is_rejected() {
    for text in ["", "-", "1.", ".5", "1.2.3", "NaN", "inf", "1e5", "12i"] {
        let mut p = DataPoint::new("m");
        p.add_field("v", Value::Float(String::from(text)));
        assert_eq!(Err(EncodeError::InvalidFloat), line_serialization(p), "{}", text);
    }
}

#[test]
fn backslash_before_quote_is_doubled() {
    assert_eq!("a\\\\\"b", double_backslashes_before_quotes("a\\\"b"));
    assert_eq!("c:\\dir \"x\"", double_backslashes_before_quotes("c:\\dir \"x\""));
    assert_eq!("end\\", double_backslashes_before_quotes("end\\"));
}

#[test]
fn text_value_with_escaped_quote_stays_decodable() {
    let mut p = DataPoint::new("m");
    p.add_field("s", Value::String(String::from("a\\\"b")));
    assert_eq!("m s=\"a\\\\\\\"b\"\n", line_serialization(p).unwrap());
}
