#[test]
fn simple() {
    let data: Vec<u8> = vec![100, 0, 0, 0, 100, 0, 0, 0, 0, 100, 100, 100];

    let out = rt_one::ppm::write(2, &data);

    let s = String::from_utf8(out).unwrap();
    assert_eq!(s, "P3\n2 2\n255\n100 0 0 0 100 0 \n0 0 0 100 100 100 \n");
}

#[test]
fn book_example() {
    let mut buf: Vec<u8> = Vec::new();
    for row in 0..256 {
        for col in 0..256 {
            buf.push(col as u8);
            buf.push(row as u8);
            buf.push(0);
        }
    }

    let out = rt_one::ppm::write(256, &buf);

    let s = String::from_utf8(out).unwrap();
    assert!(s.starts_with("P3\n256 256\n255\n"));
    assert!(s.ends_with("255 255 0 \n"));
    assert_eq!(s.lines().count(), 3 + 256);
}

#[test]
fn single_pixel() {
    let data: Vec<u8> = vec![255, 0, 7];
    let out = rt_one::ppm::write(1, &data);
    assert_eq!(String::from_utf8(out).unwrap(), "P3\n1 1\n255\n255 0 7 \n");
}
