# rust_pdf

A PDF object model and editor whose behaviour is stated in Verus
contracts and proved.

- `src/` is the verified library:
  - the object model and its serializer (`object`, `serialize`, `writer`,
    `document`, `page`, `info`);
  - the content-stream lexer and codec (`lexer`, `content_stream`,
    `roundtrip`);
  - the editor over a loaded file: `graph` for the object table and the
    page tree; `pages`, `outline`, `structure`, `content_ops`, `save`;
  - forms: reading and filling fields (`forms`), creating them
    (`form_create`), flattening (`flatten`: painting a widget's
    appearance onto its page, detaching the widgets);
  - annotations: listing and deleting (`annotations`), stamps and
    comments (`form_create`), text markup and free text (`markup`), ink
    (`ink`);
  - text: font use (`font_use`), extraction (`text_extract`), redaction
    (`text_redact`, `redact`, `audit`);
  - colour and conformance: ICC headers and output intents (`icc`,
    `output_intent`), the PDF/X colour-space check (`pdfx`: the
    validator itself), and for PDF/A and PDF/UA the report types, the
    PDF/A fixes (`pdfa_fix`: transparency, forbidden catalog entries)
    and the PDF/UA catalog settings and figure alt-text check (`pdfua`);
    the full PDF/A and PDF/UA validators are not here.
- `tests/` exercises the library on concrete documents.
- `app/` holds what Verus does not see: file and clock access, copies
  of the error types that carry `thiserror` derives, and the
  floating-point work whose results it hands to the library: colours,
  content builders, annotation appearances, and the matrix that maps a
  widget's appearance onto its rectangle when a form is flattened.

Numbers with a fraction are held as fixed-point values in millionths;
streams are written without compression.
