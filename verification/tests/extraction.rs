use xml_checksum_service::extractor::{
    extract_invoice, invoice_from_tokens, ExtractError, Extractor, XmlToken,
};

fn amount(text: &str) -> Result<String, ExtractError> {
    extract_invoice(text).map(|invoice| invoice.total_amount)
}

#[test]
fn test_xml_parsing() {
    let xml_content = r#"
        <?xml version="1.0"?>
        <invoice>
            <totalAmount>495.00</totalAmount>
        </invoice>
    "#;

    let invoice = extract_invoice(xml_content).unwrap();
    assert_eq!(invoice.total_amount, "495.00");
}

#[test]
fn test_invalid_xml() {
    let xml_content = r#"
        <?xml version="1.0"?>
        <invoice>
            <invalidTag>495.00</invalidTag>
        </invoice>
    "#;

    let result = extract_invoice(xml_content);
    assert!(result.is_err());
}

#[test]
fn missing_field_is_told_from_ill_formed_documents() {
    assert_eq!(amount("<invoice><invalidTag>495.00</invalidTag></invoice>"), Err(ExtractError::MissingField));
    assert_eq!(amount("<invoice></invoice>"), Err(ExtractError::MissingField));
    assert_eq!(amount("<invoice/>"), Err(ExtractError::MissingField));
    assert_eq!(amount("<invoice><totalAmount>1</totalAmount>"), Err(ExtractError::NotWellFormed));
    assert_eq!(amount("<invoice><totalAmount>1</invoice>"), Err(ExtractError::NotWellFormed));
    assert_eq!(amount("<invoice><totalAmount>1</totalAmount></order>"), Err(ExtractError::NotWellFormed));
    assert_eq!(amount("<invoice><totalAmount>1</totalAmount"), Err(ExtractError::NotWellFormed));
    assert_eq!(amount(""), Err(ExtractError::NotWellFormed));
    assert_eq!(amount("   \n "), Err(ExtractError::NotWellFormed));
    assert_eq!(amount("not xml at all"), Err(ExtractError::NotWellFormed));
    assert_eq!(amount("junk<invoice><totalAmount>1</totalAmount></invoice>"), Err(ExtractError::NotWellFormed));
    assert_eq!(amount("</invoice>"), Err(ExtractError::NotWellFormed));
}

#[test]
fn amount_is_taken_as_written() {
    assert_eq!(amount("<i><totalAmount>495.00</totalAmount></i>"), Ok("495.00".to_string()));
    assert_eq!(amount("<i><totalAmount> 0001234.5600 </totalAmount></i>"), Ok(" 0001234.5600 ".to_string()));
    assert_eq!(amount("<i><totalAmount></totalAmount></i>"), Ok(String::new()));
    assert_eq!(amount("<i><totalAmount/></i>"), Ok(String::new()));
    assert_eq!(amount("<i><totalAmount>1<!-- cents -->.50</totalAmount></i>"), Ok("1.50".to_string()));
    assert_eq!(amount("<i><totalAmount><![CDATA[7.25]]></totalAmount></i>"), Ok("7.25".to_string()));
    assert_eq!(amount("<i><totalAmount>1&amp;2</totalAmount></i>"), Ok("1&amp;2".to_string()));
    assert_eq!(amount("<i><totalAmount currency=\"EUR\">9.99</totalAmount></i>"), Ok("9.99".to_string()));
    assert_eq!(amount("<i><totalAmount>сто рублей</totalAmount></i>"), Ok("сто рублей".to_string()));
}

#[test]
fn field_is_a_child_of_the_root() {
    assert_eq!(
        amount("<i><totals><totalAmount>1</totalAmount></totals></i>"),
        Err(ExtractError::MissingField)
    );
    assert_eq!(
        amount("<i><a><b>x</b><c/></a><totalAmount>2</totalAmount><d>y</d></i>"),
        Ok("2".to_string())
    );
    assert_eq!(amount("<totalAmount>3</totalAmount>"), Err(ExtractError::MissingField));
    assert_eq!(amount("<i>text<totalAmount>4</totalAmount>more &lt; text</i>"), Ok("4".to_string()));
}

#[test]
fn field_may_carry_a_namespace_prefix() {
    assert_eq!(
        amount("<inv:invoice xmlns:inv=\"urn:x\"><inv:totalAmount>8</inv:totalAmount></inv:invoice>"),
        Ok("8".to_string())
    );
    assert_eq!(amount("<i><счёт:totalAmount>8</счёт:totalAmount></i>"), Ok("8".to_string()));
    assert_eq!(amount("<i><:totalAmount>8</:totalAmount></i>"), Ok("8".to_string()));
    assert_eq!(amount("<i><a:b:totalAmount>8</a:b:totalAmount></i>"), Err(ExtractError::MissingField));
    assert_eq!(amount("<i><totalAmount:a>8</totalAmount:a></i>"), Err(ExtractError::MissingField));
    assert_eq!(amount("<i><TotalAmount>8</TotalAmount></i>"), Err(ExtractError::MissingField));
    assert_eq!(amount("<i><totalAmounts>8</totalAmounts></i>"), Err(ExtractError::MissingField));
    assert_eq!(amount("<i><xtotalAmount>8</xtotalAmount></i>"), Err(ExtractError::MissingField));
    assert_eq!(amount("<i totalAmount=\"8\"></i>"), Err(ExtractError::MissingField));
}

#[test]
fn field_must_be_a_single_text() {
    assert_eq!(
        amount("<i><totalAmount>1</totalAmount><totalAmount>2</totalAmount></i>"),
        Err(ExtractError::InvalidField)
    );
    assert_eq!(
        amount("<i><totalAmount>1</totalAmount><totalAmount/></i>"),
        Err(ExtractError::InvalidField)
    );
    assert_eq!(
        amount("<i><totalAmount><value>1</value></totalAmount></i>"),
        Err(ExtractError::InvalidField)
    );
    assert_eq!(amount("<i><totalAmount>1<br/></totalAmount></i>"), Err(ExtractError::InvalidField));
}

#[test]
fn what_follows_the_root_is_not_read() {
    assert_eq!(amount("<i><totalAmount>5</totalAmount></i><broken"), Ok("5".to_string()));
    assert_eq!(amount("<i><totalAmount>5</totalAmount></i>\n"), Ok("5".to_string()));
}

#[test]
fn prolog_may_hold_white_space_and_markup() {
    let document = "\r\n\t <?xml version=\"1.0\"?>\n<!-- an invoice -->\n<!DOCTYPE invoice>\n<invoice><totalAmount>6</totalAmount></invoice>";
    assert_eq!(amount(document), Ok("6".to_string()));
    assert_eq!(amount("\u{a0}<i><totalAmount>6</totalAmount></i>"), Err(ExtractError::NotWellFormed));
}

#[test]
fn tokens_are_walked_as_the_document_is() {
    let tokens = vec![
        XmlToken::Markup,
        XmlToken::Open("invoice".to_string()),
        XmlToken::Text("\n  ".to_string()),
        XmlToken::Open("seller".to_string()),
        XmlToken::Open("name".to_string()),
        XmlToken::Text("Acme".to_string()),
        XmlToken::Close,
        XmlToken::Close,
        XmlToken::Open("totalAmount".to_string()),
        XmlToken::Text("495".to_string()),
        XmlToken::Reference("#46".to_string()),
        XmlToken::CData("00".to_string()),
        XmlToken::Close,
        XmlToken::Empty("paid".to_string()),
        XmlToken::Close,
        XmlToken::End,
    ];
    let invoice = invoice_from_tokens(&tokens).unwrap();
    assert_eq!(invoice.total_amount, "495&#46;00");
}

#[test]
fn tokens_that_stop_early_are_not_a_document() {
    let tokens = vec![
        XmlToken::Open("invoice".to_string()),
        XmlToken::Open("totalAmount".to_string()),
        XmlToken::Text("1".to_string()),
        XmlToken::Close,
    ];
    assert_eq!(invoice_from_tokens(&tokens).map(|i| i.total_amount), Err(ExtractError::NotWellFormed));
    assert_eq!(invoice_from_tokens(&[]).map(|i| i.total_amount), Err(ExtractError::NotWellFormed));
    let broken = vec![XmlToken::Open("invoice".to_string()), XmlToken::Malformed, XmlToken::Close];
    assert_eq!(invoice_from_tokens(&broken).map(|i| i.total_amount), Err(ExtractError::NotWellFormed));
}

#[test]
fn extractor_finishes_with_the_root() {
    let extractor = Extractor::new();
    assert!(!extractor.is_finished());
    let extractor = extractor.step(&XmlToken::Open("invoice".to_string()));
    let extractor = extractor.step(&XmlToken::Empty("totalAmount".to_string()));
    assert!(!extractor.is_finished());
    let extractor = extractor.step(&XmlToken::Close);
    assert!(extractor.is_finished());
    let extractor = extractor.step(&XmlToken::Malformed);
    assert_eq!(extractor.finish().map(|i| i.total_amount), Ok(String::new()));
}

#[test]
fn long_documents_are_read_to_the_end() {
    let mut document = String::from("<invoice>");
    for i in 0..2000 {
        document.push_str(&format!("<line n=\"{}\"><a/><b>x</b></line>", i));
    }
    document.push_str("<totalAmount>123456.78</totalAmount></invoice>");
    assert_eq!(amount(&document), Ok("123456.78".to_string()));
    assert_eq!(amount("<a><totalAmount/></a>"), Ok(String::new()));
}

fn token_count(document: &str) -> usize {
    let mut reader = quick_xml::Reader::from_str(document);
    let mut count = 0;
    loop {
        count += 1;
        match reader.read_event() {
            Ok(quick_xml::events::Event::Eof) | Err(_) => return count,
            Ok(_) => {}
        }
    }
}

#[test]
fn every_token_but_the_last_takes_a_byte() {
    let pieces = [
        "<a>", "</a>", "<a/>", "x", " ", "&a;", "&#1;", "<!--c-->", "<?p?>", "<![CDATA[]]>",
        "<![CDATA[x]]>", "<!DOCTYPE a>", "<?xml version=\"1.0\"?>", "<a b=\"c\">", "\n",
    ];
    for first in pieces {
        for second in pieces {
            for third in pieces {
                let document = format!("{}{}{}", first, second, third);
                assert!(token_count(&document) <= document.len() + 1, "{}", document);
                let repeated = document.repeat(20);
                assert!(token_count(&repeated) <= repeated.len() + 1, "{}", repeated);
            }
        }
    }
    assert_eq!(token_count(""), 1);
    assert_eq!(token_count("<a></a>"), 3);
}
