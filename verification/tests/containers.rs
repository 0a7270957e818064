use bounded::string;
use bounded::vector;

#[test]
fn vector() {
    let mut vector = vector::Vec::<u8, 128>::new();
    vector.push(0);
    vector.push(1);

    println!("{:?}", vector.as_slice())
}

#[test]
fn string() {
    println!(
        "{:?}",
        string::String::<128>::from("   hello world\t")
            .trim()
            .replace("h", "a")
            .as_str()
    );

    println!(
        "{:?}; {:?}",
        string::String::<128>::from("text, pattern").contains("pattern"),
        string::String::<128>::from("text").contains("pattern")
    )
}

#[test]
fn calc() {
    println!("{}", 210_326f32 / 606f32);
    println!("{}", 67.0 * 9.81 * 320.0);
    println!("{}", (67.0 * 9.81 * 320.0) / (10.1 * 60.0));
}

#[test]
fn split() {
    let string = string::String::<128>::from("hello world! so so");
    let splitted_value = string.split(" ");

    for string in splitted_value.as_slice() {
        println!("{}", string.as_str().unwrap());
    }
}

#[test]
fn find() {
    let string = string::String::<128>::from("hello world! so so");

    println!("{}", string.find("o s").unwrap())
}

#[test]
fn test() {
    let mut vector = vector::Vec::<u8, 1000000>::from_slice(&[18, 12, 0, 9, 3]);

    let mut index: usize = 0;
    while index < vector.len() {
        let current = vector.get(index).unwrap();
        vector.set(index, current + 1);
        index += 1;
    }

    println!("{:#?}", vector.as_slice());
}
