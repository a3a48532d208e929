# mcap_viewer

A viewer that plots the fields of ROS 2 messages recorded in MCAP files.

The library (`src/`) is verified with Verus:

- `mcap_file`: what is done with the records of an MCAP file once the
  `mcap` crate has read them: its schemas are parsed into a message table and
  its messages decoded into a storage.
- `cdr_reader`: reading CDR-encoded primitives and strings, with alignment.
- `decode`: decoding a message against its schema into the list of values it
  holds, each with the path of its field.
- `schema`: the `.msg` schema language, its parser, and the table of parsed
  messages.
- `storage`: time series per field and per topic, filled from decoded
  messages, merged and sorted by time.
- `tab`, `viewer`, `widgets`, `cache`: the state of the window that does not
  depend on drawing.
- `text`: UTF-8 and character-sequence helpers.

The program (`app/`) is the window itself (egui), reading files from disk
and their records with the `mcap` crate (whose readers panic on some malformed
files), spreading the storing of messages over threads, and the conversion of
stored values to floating-point plot points.
